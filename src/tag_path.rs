//! The path of open tags, with the nth-child index of each, and matching
//! of selector chains against its tail.
use crate::predicates::{holds, Predicate};
use crate::start_element::{Tag, TagModel};
use vstd::prelude::*;

verus! {

/// One frame of the path: a tag and its position among the preceding
/// siblings of the same name.
pub struct ItemModel {
    pub tag: TagModel,
    pub nth_child: nat,
}

/// The open tags, root first, and the frame popped last with the depth it
/// was popped from.
pub struct PathModel {
    pub path: Seq<ItemModel>,
    pub last: Option<(ItemModel, nat)>,
}

/// The nth-child index of a tag named `name` pushed on `m`: one more than
/// the frame popped last, when that frame was popped from the depth the new
/// tag goes to and has the same name; else 1. The index stops growing at
/// `usize::MAX`.
pub open spec fn next_nth_child(m: PathModel, name: Seq<char>) -> nat {
    match m.last {
        Some((item, depth)) => if depth == m.path.len() + 1 && item.tag.name == name {
            if item.nth_child < usize::MAX {
                item.nth_child + 1
            } else {
                item.nth_child
            }
        } else {
            1
        },
        None => 1,
    }
}

/// `m` after pushing `t`.
pub open spec fn path_add(m: PathModel, t: TagModel) -> PathModel {
    PathModel {
        path: m.path.push(ItemModel { tag: t, nth_child: next_nth_child(m, t.name) }),
        last: m.last,
    }
}

/// `m` after popping its top frame.
pub open spec fn path_reduce(m: PathModel) -> PathModel {
    if m.path.len() == 0 {
        PathModel { path: m.path, last: None }
    } else {
        PathModel { path: m.path.drop_last(), last: Some((m.path.last(), m.path.len())) }
    }
}

/// The empty path.
pub open spec fn empty_path() -> PathModel {
    PathModel { path: Seq::empty(), last: None }
}

/// The frame popped last was popped from no deeper than one below the top.
pub open spec fn path_wf(m: PathModel) -> bool {
    m.last matches Some((_, d)) ==> d <= m.path.len() + 1
}

/// One operation on a tag path.
pub enum PathOp {
    Add(TagModel),
    Reduce,
}

/// `m` after `op`.
pub open spec fn apply_op(m: PathModel, op: PathOp) -> PathModel {
    match op {
        PathOp::Add(t) => path_add(m, t),
        PathOp::Reduce => path_reduce(m),
    }
}

/// `m` after each of `ops`, in order.
pub open spec fn apply_ops(m: PathModel, ops: Seq<PathOp>) -> PathModel
    decreases ops.len(),
{
    if ops.len() == 0 {
        m
    } else {
        apply_ops(apply_op(m, ops[0]), ops.drop_first())
    }
}

/// How much deeper `ops` leave the path: one for each push, minus one for
/// each pop.
pub open spec fn rise(ops: Seq<PathOp>) -> int
    decreases ops.len(),
{
    if ops.len() == 0 {
        0
    } else {
        (if ops[0] is Add {
            1int
        } else {
            -1int
        }) + rise(ops.drop_first())
    }
}

/// `ops` open and close tags in pairs: no prefix pops more than it pushed,
/// and the whole pops all it pushed.
pub open spec fn balanced(ops: Seq<PathOp>) -> bool {
    &&& forall|k: int| 0 <= k <= ops.len() ==> rise(#[trigger] ops.take(k)) >= 0
    &&& rise(ops) == 0
}

proof fn lemma_rise_take(ops: Seq<PathOp>, k: int)
    requires
        0 <= k < ops.len(),
    ensures
        rise(ops.take(k + 1)) == (if ops[0] is Add {
            1int
        } else {
            -1int
        }) + rise(ops.drop_first().take(k)),
{
    assert(ops.take(k + 1).drop_first() =~= ops.drop_first().take(k));
    assert(ops.take(k + 1)[0] == ops[0]);
}

/// Operations that never take the path below `base` frames leave those
/// frames alone, and change the depth by their rise.
proof fn lemma_ops_keep_base(m: PathModel, ops: Seq<PathOp>, base: int)
    requires
        0 <= base <= m.path.len(),
        forall|k: int| 0 <= k <= ops.len() ==> m.path.len() + rise(#[trigger] ops.take(k)) >= base,
    ensures
        apply_ops(m, ops).path.len() == m.path.len() + rise(ops),
        apply_ops(m, ops).path.take(base) == m.path.take(base),
    decreases ops.len(),
{
    if ops.len() > 0 {
        let m1 = apply_op(m, ops[0]);
        let rest = ops.drop_first();
        lemma_rise_take(ops, 0);
        assert(ops.take(1) == ops.take(0int + 1));
        assert(rest.take(0) =~= Seq::<PathOp>::empty());
        assert(m.path.len() + rise(ops.take(1)) >= base);
        assert forall|k: int| 0 <= k <= rest.len() implies m1.path.len() + rise(
            #[trigger] rest.take(k),
        ) >= base by {
            lemma_rise_take(ops, k);
            assert(m.path.len() + rise(ops.take(k + 1)) >= base);
        }
        lemma_ops_keep_base(m1, rest, base);
        assert(m1.path.take(base) =~= m.path.take(base));
        assert(ops.take(ops.len() as int) =~= ops);
        lemma_rise_take(ops, rest.len() as int);
        assert(rest.take(rest.len() as int) =~= rest);
    }
}

/// A balanced run of operations gives the path back as it was.
pub proof fn lemma_balanced_keeps_path(m: PathModel, ops: Seq<PathOp>)
    requires
        balanced(ops),
    ensures
        apply_ops(m, ops).path == m.path,
{
    lemma_ops_keep_base(m, ops, m.path.len() as int);
    assert(apply_ops(m, ops).path.take(m.path.len() as int) =~= apply_ops(m, ops).path);
    assert(m.path.take(m.path.len() as int) =~= m.path);
}

/// The first tag pushed inside a freshly pushed tag is child number 1.
pub proof fn lemma_first_child(m: PathModel, parent: TagModel, t: TagModel)
    requires
        path_wf(m),
    ensures
        path_add(path_add(m, parent), t).path.last().nth_child == 1,
{
}

/// A tag pushed after a same-name sibling, once that sibling and all it
/// held were closed, is the next child of that name.
pub proof fn lemma_next_sibling(m: PathModel, t1: TagModel, inner: Seq<PathOp>, t2: TagModel)
    requires
        balanced(inner),
        t1.name == t2.name,
        next_nth_child(m, t1.name) < usize::MAX,
    ensures
        path_add(path_reduce(apply_ops(path_add(m, t1), inner)), t2).path.last().nth_child
            == path_add(m, t1).path.last().nth_child + 1,
{
    let m1 = path_add(m, t1);
    lemma_balanced_keeps_path(m1, inner);
    assert(m1.path.drop_last() =~= m.path);
}

/// The nth-child index that each of `kids` gets, each pushed on `m` in turn
/// and popped after the operations inside it.
pub open spec fn kid_indices(m: PathModel, kids: Seq<(TagModel, Seq<PathOp>)>) -> Seq<nat>
    decreases kids.len(),
{
    if kids.len() == 0 {
        Seq::empty()
    } else {
        let m1 = path_add(m, kids[0].0);
        seq![m1.path.last().nth_child] + kid_indices(
            path_reduce(apply_ops(m1, kids[0].1)),
            kids.drop_first(),
        )
    }
}

proof fn lemma_kids_after(m: PathModel, kids: Seq<(TagModel, Seq<PathOp>)>, name: Seq<char>, c: nat)
    requires
        m.last matches Some((item, d)) && d == m.path.len() + 1 && item.tag.name == name
            && item.nth_child == c,
        c + kids.len() <= usize::MAX,
        forall|i: int| 0 <= i < kids.len() ==> (#[trigger] kids[i]).0.name == name && balanced(
            kids[i].1,
        ),
    ensures
        kid_indices(m, kids).len() == kids.len(),
        forall|i: int| 0 <= i < kids.len() ==> kid_indices(m, kids)[i] == c + 1 + i,
    decreases kids.len(),
{
    if kids.len() > 0 {
        let m1 = path_add(m, kids[0].0);
        assert(kids[0].0.name == name && balanced(kids[0].1));
        lemma_balanced_keeps_path(m1, kids[0].1);
        let m2 = path_reduce(apply_ops(m1, kids[0].1));
        assert(m1.path.drop_last() =~= m.path);
        let rest = kids.drop_first();
        assert forall|i: int| 0 <= i < rest.len() implies (#[trigger] rest[i]).0.name == name
            && balanced(rest[i].1) by {
            assert(rest[i] == kids[i + 1]);
        }
        lemma_kids_after(m2, rest, name, c + 1);
        assert forall|i: int| 0 <= i < kids.len() implies kid_indices(m, kids)[i] == c + 1 + i by {
            if i > 0 {
                assert(kid_indices(m, kids)[i] == kid_indices(m2, rest)[i - 1]);
            }
        }
    }
}

/// Siblings of one name, pushed one after another inside a freshly pushed
/// parent, each popped after a balanced run of operations inside it, get
/// the nth-child indices 1, 2, ..., n in document order.
pub proof fn lemma_siblings_count_up(
    m: PathModel,
    parent: TagModel,
    kids: Seq<(TagModel, Seq<PathOp>)>,
    name: Seq<char>,
)
    requires
        path_wf(m),
        kids.len() <= usize::MAX,
        forall|i: int| 0 <= i < kids.len() ==> (#[trigger] kids[i]).0.name == name && balanced(
            kids[i].1,
        ),
    ensures
        kid_indices(path_add(m, parent), kids).len() == kids.len(),
        forall|i: int|
            0 <= i < kids.len() ==> #[trigger] kid_indices(path_add(m, parent), kids)[i] == i + 1,
{
    if kids.len() > 0 {
        let p = path_add(m, parent);
        let m1 = path_add(p, kids[0].0);
        assert(kids[0].0.name == name && balanced(kids[0].1));
        lemma_first_child(m, parent, kids[0].0);
        lemma_balanced_keeps_path(m1, kids[0].1);
        let m2 = path_reduce(apply_ops(m1, kids[0].1));
        assert(m1.path.drop_last() =~= p.path);
        let rest = kids.drop_first();
        assert forall|i: int| 0 <= i < rest.len() implies (#[trigger] rest[i]).0.name == name
            && balanced(rest[i].1) by {
            assert(rest[i] == kids[i + 1]);
        }
        lemma_kids_after(m2, rest, name, 1);
        assert forall|i: int| 0 <= i < kids.len() implies #[trigger] kid_indices(p, kids)[i] == i
            + 1 by {
            if i > 0 {
                assert(kid_indices(p, kids)[i] == kid_indices(m2, rest)[i - 1]);
            }
        }
    }
}

/// One frame of the path.
#[derive(Debug)]
pub struct TagPathItem {
    pub tag: Box<Tag>,
    /// 1-based position among the siblings of the same name that precede
    /// it without another tag in between.
    pub nth_child: usize,
}

impl View for TagPathItem {
    type V = ItemModel;

    open spec fn view(&self) -> ItemModel {
        ItemModel { tag: self.tag@, nth_child: self.nth_child as nat }
    }
}

/// The path of open tags, root first.
#[derive(Debug)]
pub struct TagPath {
    path: Vec<TagPathItem>,
    last_popped_tag: Option<(TagPathItem, usize)>,
}

impl View for TagPath {
    type V = PathModel;

    closed spec fn view(&self) -> PathModel {
        PathModel {
            path: self.path@.map_values(|i: TagPathItem| i@),
            last: match self.last_popped_tag {
                Some((item, depth)) => Some((item@, depth as nat)),
                None => None,
            },
        }
    }
}

impl TagPath {
    /// An empty path.
    pub fn new() -> (r: TagPath)
        ensures
            r@ == empty_path(),
    {
        let r = TagPath { path: Vec::new(), last_popped_tag: None };
        assert(r@.path =~= Seq::<ItemModel>::empty());
        r
    }

    /// Number of open tags.
    pub fn depth(&self) -> (r: usize)
        ensures
            r == self@.path.len(),
    {
        self.path.len()
    }

    /// Pushes `tag`, with its nth-child index.
    pub fn add(&mut self, tag: Tag)
        ensures
            final(self)@ == path_add(old(self)@, tag@),
    {
        let next_nth_child: usize = match &self.last_popped_tag {
            Some((item, depth)) => {
                if *depth > 0 && *depth - 1 == self.path.len() && item.tag.name == tag.name {
                    if item.nth_child < usize::MAX {
                        item.nth_child + 1
                    } else {
                        item.nth_child
                    }
                } else {
                    1
                }
            },
            None => 1,
        };
        let ghost before = self@;
        self.path.push(TagPathItem { tag: Box::new(tag), nth_child: next_nth_child });
        assert(self@.path =~= path_add(before, tag@).path);
    }

    /// Pops the top frame and remembers it with the depth it was popped
    /// from; on an empty path, forgets the frame popped last.
    pub fn reduce(&mut self)
        ensures
            final(self)@ == path_reduce(old(self)@),
    {
        let len = self.path.len();
        let ghost before = self@;
        match self.path.pop() {
            Some(item) => {
                self.last_popped_tag = Some((item, len));
                assert(self@.path =~= path_reduce(before).path);
            },
            None => {
                self.last_popped_tag = None;
            },
        }
    }

    /// The open tags, root first.
    pub fn get_matching_path(&self) -> (r: Vec<&TagPathItem>)
        ensures
            items_of(r@) == self@.path,
    {
        let mut r: Vec<&TagPathItem> = Vec::new();
        let mut i: usize = 0;
        while i < self.path.len()
            invariant
                i <= self.path@.len(),
                r@.len() == i,
                forall|j: int| 0 <= j < i ==> r@[j]@ == self@.path[j],
            decreases self.path@.len() - i,
        {
            r.push(&self.path[i]);
            i += 1;
        }
        assert(items_of(r@) =~= self@.path);
        r
    }
}

/// The frames behind a list of references.
pub open spec fn items_of(v: Seq<&TagPathItem>) -> Seq<ItemModel> {
    v.map_values(|i: &TagPathItem| i@)
}

/// The backward walk: predicate `j` against frame `i`, then `j - 1` against
/// `i - 1`, and so on; it succeeds when predicate 0 holds.
pub open spec fn walk(path: Seq<ItemModel>, chain: Seq<Predicate>, i: int, j: int) -> bool
    decreases j,
{
    if i < 0 || j < 0 || i >= path.len() || j >= chain.len() {
        false
    } else if !holds(chain[j], path[i]) {
        false
    } else if j == 0 {
        true
    } else {
        walk(path, chain, i - 1, j - 1)
    }
}

/// Whether `chain` matches the tail of `path`: the path is not empty, not
/// shorter than the chain, and the walk from the last frame and the last
/// predicate succeeds. A chain without predicates matches any non-empty
/// path.
pub open spec fn chain_matches(path: Seq<ItemModel>, chain: Seq<Predicate>) -> bool {
    if path.len() == 0 || path.len() < chain.len() {
        false
    } else if chain.len() == 0 {
        true
    } else {
        walk(path, chain, path.len() - 1, chain.len() - 1)
    }
}

proof fn lemma_walk(path: Seq<ItemModel>, chain: Seq<Predicate>, i: int, j: int)
    requires
        0 <= j <= i < path.len(),
        j < chain.len(),
    ensures
        walk(path, chain, i, j) <==> forall|k: int|
            0 <= k <= j ==> holds(#[trigger] chain[k], path[i - j + k]),
    decreases j,
{
    if j > 0 {
        lemma_walk(path, chain, i - 1, j - 1);
        if walk(path, chain, i, j) {
            assert forall|k: int| 0 <= k <= j implies holds(#[trigger] chain[k], path[i - j + k]) by {
                if k < j {
                    assert(path[(i - 1) - (j - 1) + k] == path[i - j + k]);
                }
            }
        }
        if forall|k: int| 0 <= k <= j ==> holds(#[trigger] chain[k], path[i - j + k]) {
            assert(holds(chain[j], path[i]));
            assert forall|k: int| 0 <= k <= j - 1 implies holds(
                #[trigger] chain[k],
                path[(i - 1) - (j - 1) + k],
            ) by {
                assert(path[(i - 1) - (j - 1) + k] == path[i - j + k]);
            }
        }
    } else {
        if holds(chain[0], path[i]) {
            assert(holds(chain[0], path[i - 0 + 0]));
        }
    }
}

/// A chain matches a path exactly when the path is not empty, is at least
/// as long as the chain, and, with the chain's last predicate put against
/// the path's last frame, each predicate holds of the frame beside it. The
/// frames above the chain's first predicate play no part.
pub proof fn lemma_chain_matches_suffix(path: Seq<ItemModel>, chain: Seq<Predicate>)
    ensures
        chain_matches(path, chain) <==> (path.len() > 0 && chain.len() <= path.len() && forall|
            j: int,
        | 0 <= j < chain.len() ==> holds(#[trigger] chain[j], path[path.len() - chain.len() + j])),
{
    if path.len() > 0 && chain.len() <= path.len() && chain.len() > 0 {
        lemma_walk(path, chain, path.len() - 1, chain.len() - 1);
        assert forall|k: int| 0 <= k < chain.len() implies holds(
            #[trigger] chain[k],
            path[path.len() - chain.len() + k],
        ) == holds(chain[k], path[(path.len() - 1) - (chain.len() - 1) + k]) by {
            assert((path.len() - 1) - (chain.len() - 1) + k == path.len() - chain.len() + k);
        }
    }
}

/// A chain of two predicates matches a path of three frames exactly when
/// the first predicate holds of the second frame and the second of the
/// third; the first frame is not consulted.
pub proof fn lemma_two_predicates_three_frames(
    a: ItemModel,
    b: ItemModel,
    c: ItemModel,
    outer: Predicate,
    inner: Predicate,
)
    ensures
        chain_matches(seq![a, b, c], seq![outer, inner]) <==> (holds(outer, b) && holds(inner, c)),
{
    let path = seq![a, b, c];
    let chain = seq![outer, inner];
    lemma_chain_matches_suffix(path, chain);
    assert(chain[0] == outer && chain[1] == inner);
    assert(path[3 - 2 + 0] == b && path[3 - 2 + 1] == c);
}

/// Whether `css_selector` matches the tail of `tag_path`: each predicate,
/// from the last, against one frame, from the last, going up.
pub fn match_tag_path(tag_path: Vec<&TagPathItem>, css_selector: &Vec<Predicate>) -> (r: bool)
    ensures
        r == chain_matches(items_of(tag_path@), css_selector@),
{
    let ghost path = items_of(tag_path@);
    if tag_path.len() == 0 || tag_path.len() < css_selector.len() {
        return false;
    }
    if css_selector.len() == 0 {
        return true;
    }
    let mut i = tag_path.len() - 1;
    let mut j = css_selector.len() - 1;
    loop
        invariant
            j <= i < tag_path@.len(),
            j < css_selector@.len(),
            path == items_of(tag_path@),
            walk(path, css_selector@, i as int, j as int) == chain_matches(path, css_selector@),
        decreases j,
    {
        if !css_selector[j].matches(tag_path[i]) {
            return false;
        }
        if j == 0 {
            return true;
        }
        i -= 1;
        j -= 1;
    }
}

} // verus!
