//! Walking a directory, step by step. The caller reads directories; what is
//! looked at next, and what is left out, is decided here.
use vstd::prelude::*;

use crate::sort::{
    keys_by, law_sorted_ascends, law_sorted_keeps_elements, lemma_sort_order_exists, sort_by_key, sorted_by, Keyed,
};
use crate::text::{bytes_less, bytes_lt, lemma_views_push, opt_view, same_text, views, Text};

verus! {

/// A file or directory that is met on a walk.
#[derive(Debug)]
pub struct WalkItem {
    /// By what the caller knows it.
    pub id: u64,
    /// Its name, where that is text.
    pub name: Option<String>,
    /// The bytes of its name, by which siblings are ordered.
    pub key: Vec<u8>,
}

#[verifier::ext_equal]
pub struct WalkItemView {
    pub id: u64,
    pub name: Option<Text>,
    pub key: Seq<u8>,
}

impl View for WalkItem {
    type V = WalkItemView;

    open spec fn view(&self) -> WalkItemView {
        WalkItemView { id: self.id, name: opt_view(self.name), key: self.key@ }
    }
}

impl Keyed for WalkItem {
    open spec fn sort_key(&self) -> Seq<u8> {
        self.key@
    }

    fn key_less(&self, other: &Self) -> (less: bool) {
        bytes_less(self.key.as_slice(), other.key.as_slice())
    }
}

/// Items in the order of their names.
pub open spec fn items_sorted(items: Seq<WalkItemView>) -> Seq<WalkItemView> {
    sorted_by(items, |x: WalkItemView| x.key)
}

/// Whether an item is left out: its name is one of those given.
pub open spec fn is_left_out(excludes: Seq<Text>, item: WalkItemView) -> bool {
    item.name matches Some(name) && excludes.contains(name)
}

/// A walk between two items.
pub struct Walk {
    excludes: Vec<String>,
    only_files: bool,
    at_start: bool,
    stack: Vec<WalkItem>,
    found: Vec<WalkItem>,
}

#[verifier::ext_equal]
pub struct WalkView {
    /// The names that are left out below the item that the walk begins at.
    pub excludes: Seq<Text>,
    /// Whether only regular files are found, or all that is no directory.
    pub only_files: bool,
    /// Whether the item that the walk begins at is still to be looked at.
    pub at_start: bool,
    /// What is still to be looked at, the next at the end.
    pub stack: Seq<WalkItemView>,
    /// The files found so far.
    pub found: Seq<WalkItemView>,
}

impl View for Walk {
    type V = WalkView;

    closed spec fn view(&self) -> WalkView {
        WalkView {
            excludes: views(self.excludes@),
            only_files: self.only_files,
            at_start: self.at_start,
            stack: views(self.stack@),
            found: views(self.found@),
        }
    }
}

/// A walk while an item is looked at.
pub struct Visit {
    walk: Walk,
    item: WalkItem,
    is_start: bool,
}

/// What comes next on a walk.
pub enum WalkStep {
    /// An item is to be looked at.
    Visit(Visit),
    /// The walk is over; these are the files.
    Done(Vec<WalkItem>),
}

/// Whether an item is left out of a walk: the one that the walk begins at
/// never is.
pub open spec fn is_passed_over(excludes: Seq<Text>, is_start: bool, item: WalkItemView) -> bool {
    !is_start && is_left_out(excludes, item)
}

/// A walk once the next item is taken up.
pub open spec fn taken_up(w: WalkView) -> WalkView {
    WalkView { stack: w.stack.drop_last(), at_start: false, ..w }
}

/// A walk once an item turns out to be no directory.
pub open spec fn after_leaf(w: WalkView, is_start: bool, item: WalkItemView, is_file: bool) -> WalkView {
    if is_passed_over(w.excludes, is_start, item) || w.only_files && !is_file {
        w
    } else {
        WalkView { found: w.found.push(item), ..w }
    }
}

/// A walk once an item turns out to be a directory: what is in it comes next,
/// in the order of names.
pub open spec fn after_dir(w: WalkView, is_start: bool, item: WalkItemView, children: Seq<WalkItemView>) -> WalkView {
    if is_passed_over(w.excludes, is_start, item) {
        w
    } else {
        WalkView { stack: w.stack + items_sorted(children).reverse(), ..w }
    }
}

proof fn lemma_items_sorted(items: Seq<WalkItem>)
    ensures
        views(sorted_by(items, |x: WalkItem| x.sort_key())) == items_sorted(views(items)),
{
    let keys = keys_by(items, |x: WalkItem| x.sort_key());
    let others = keys_by(views(items), |x: WalkItemView| x.key);
    assert(keys =~= others);
    lemma_sort_order_exists(keys);
    assert(views(sorted_by(items, |x: WalkItem| x.sort_key())) =~= items_sorted(views(items)));
}

impl Walk {
    /// A walk that begins at an item. What bears one of the given names is
    /// left out, but not that item itself.
    pub fn new(root: WalkItem, excludes: Vec<String>, only_files: bool) -> (walk: Walk)
        ensures
            walk@ == (WalkView {
                excludes: views(excludes@),
                only_files,
                at_start: true,
                stack: seq![root@],
                found: Seq::empty(),
            }),
    {
        let mut stack: Vec<WalkItem> = Vec::new();
        stack.push(root);
        let walk = Walk { excludes, only_files, at_start: true, stack, found: Vec::new() };
        assert(walk@.stack =~= seq![root@]);
        assert(walk@.found =~= Seq::empty());
        walk
    }

    /// Takes up the next item.
    pub fn next(self) -> (step: WalkStep)
        ensures
            match step {
                WalkStep::Visit(v) => {
                    &&& self@.stack.len() > 0
                    &&& v.item_view() == self@.stack.last()
                    &&& v.starts() == self@.at_start
                    &&& v.walk_view() == taken_up(self@)
                },
                WalkStep::Done(found) => {
                    &&& self@.stack.len() == 0
                    &&& views(found@) == self@.found
                },
            },
    {
        let mut walk = self;
        match walk.stack.pop() {
            Some(item) => {
                assert(views(walk.stack@) =~= self@.stack.drop_last());
                let is_start = walk.at_start;
                walk.at_start = false;
                WalkStep::Visit(Visit { walk, item, is_start })
            },
            None => WalkStep::Done(walk.found),
        }
    }
}

impl Visit {
    pub closed spec fn walk_view(&self) -> WalkView {
        self.walk@
    }

    pub closed spec fn item_view(&self) -> WalkItemView {
        self.item@
    }

    /// Whether the walk begins at the item.
    pub closed spec fn starts(&self) -> bool {
        self.is_start
    }

    /// The item that is looked at.
    pub fn item(&self) -> (item: &WalkItem)
        ensures
            item@ == self.item_view(),
    {
        &self.item
    }

    /// Whether the item is left out.
    pub fn is_excluded(&self) -> (is: bool)
        ensures
            is == is_passed_over(self.walk_view().excludes, self.starts(), self.item_view()),
    {
        if self.is_start {
            return false;
        }
        let name = match &self.item.name {
            Some(name) => name,
            None => {
                return false;
            },
        };
        let excludes = &self.walk.excludes;
        let ghost texts = views(excludes@);
        let mut i: usize = 0;
        while i < excludes.len()
            invariant
                texts == views(excludes@),
                texts == self.walk_view().excludes,
                !self.starts(),
                self.item_view().name == Some(name@),
                i <= texts.len(),
                forall|k: int| 0 <= k < i ==> #[trigger] texts[k] != name@,
            decreases texts.len() - i,
        {
            assert(texts[i as int] == excludes@[i as int]@);
            if same_text(excludes[i].as_str(), name.as_str()) {
                return true;
            }
            i = i + 1;
        }
        false
    }

    /// Goes on without a directory that is left out.
    pub fn skip(self) -> (walk: Walk)
        ensures
            walk@ == self.walk_view(),
    {
        self.walk
    }

    /// Goes on with what is no directory: it is found, unless it is left out
    /// or only regular files are wanted and it is none.
    pub fn leaf(self, is_file: bool) -> (walk: Walk)
        ensures
            walk@ == after_leaf(self.walk_view(), self.starts(), self.item_view(), is_file),
    {
        let out = self.is_excluded();
        let Visit { walk, item, is_start: _ } = self;
        let mut walk = walk;
        if !out && (is_file || !walk.only_files) {
            proof {
                lemma_views_push(walk.found@, item);
            }
            walk.found.push(item);
        }
        walk
    }

    /// Goes on with a directory and what is in it, unless it is left out.
    pub fn dir(self, children: Vec<WalkItem>) -> (walk: Walk)
        ensures
            walk@ == after_dir(self.walk_view(), self.starts(), self.item_view(), views(children@)),
    {
        let ghost before = self.walk_view();
        let out = self.is_excluded();
        let Visit { walk, item: _, is_start: _ } = self;
        let mut walk = walk;
        if out {
            return walk;
        }
        proof {
            lemma_items_sorted(children@);
        }
        let ghost sorted = items_sorted(views(children@));
        let mut rest = sort_by_key(children);
        let ghost full = rest@;
        let ghost base = walk.stack@;
        while rest.len() > 0
            invariant
                sorted == views(full),
                rest@ == full.take(rest@.len() as int),
                rest@.len() <= full.len(),
                walk.excludes == self.walk.excludes,
                walk.only_files == self.walk.only_files,
                walk.at_start == self.walk.at_start,
                walk.found == self.walk.found,
                views(base) == before.stack,
                walk.stack@ == base + full.skip(rest@.len() as int).reverse(),
            decreases rest.len(),
        {
            let ghost n = rest@.len() as int;
            let child = rest.pop().unwrap();
            walk.stack.push(child);
            proof {
                assert(full.skip(n - 1).reverse() =~= full.skip(n).reverse().push(full[n - 1]));
                assert(walk.stack@ =~= base + full.skip(n - 1).reverse());
            }
        }
        proof {
            assert(full.skip(0) =~= full);
            assert(views(walk.stack@) =~= before.stack + sorted.reverse());
        }
        walk
    }
}

/// What there is below an item: nothing below what is no directory, and below
/// a directory what is in it, in the order of names.
pub enum DirTree {
    Leaf { item: WalkItemView, is_file: bool },
    Dir { item: WalkItemView, kids: Seq<DirTree> },
}

/// What is wanted of a walk.
pub struct Wanted {
    /// The names that are left out.
    pub excludes: Seq<Text>,
    /// Whether only regular files are found.
    pub only_files: bool,
}

impl DirTree {
    /// The item at the top.
    pub open spec fn top(self) -> WalkItemView {
        match self {
            DirTree::Leaf { item, .. } => item,
            DirTree::Dir { item, .. } => item,
        }
    }
}

/// The items at the tops of trees.
pub open spec fn tops(trees: Seq<DirTree>) -> Seq<WalkItemView> {
    Seq::new(trees.len(), |i: int| trees[i].top())
}

/// The files of a tree, directory by directory, whatever the name at its top,
/// without what is left out below.
pub open spec fn contents(wanted: Wanted, tree: DirTree) -> Seq<WalkItemView>
    decreases tree, 0nat,
{
    match tree {
        DirTree::Leaf { item, is_file } => if wanted.only_files && !is_file {
            Seq::empty()
        } else {
            seq![item]
        },
        DirTree::Dir { kids, .. } => listings(wanted, kids),
    }
}

/// The files of a tree, directory by directory, without what is left out.
pub open spec fn listing(wanted: Wanted, tree: DirTree) -> Seq<WalkItemView>
    decreases tree, 1nat,
{
    if is_left_out(wanted.excludes, tree.top()) {
        Seq::empty()
    } else {
        contents(wanted, tree)
    }
}

/// The files of trees, one tree after another.
pub open spec fn listings(wanted: Wanted, trees: Seq<DirTree>) -> Seq<WalkItemView>
    decreases trees, 0nat,
{
    if trees.len() == 0 {
        Seq::empty()
    } else {
        listings(wanted, trees.drop_last()) + listing(wanted, trees.last())
    }
}

/// How many files and directories there are in a tree.
pub open spec fn size(tree: DirTree) -> nat
    decreases tree,
{
    match tree {
        DirTree::Leaf { .. } => 1,
        DirTree::Dir { kids, .. } => 1 + sizes(kids),
    }
}

/// How many files and directories there are in trees.
pub open spec fn sizes(trees: Seq<DirTree>) -> nat
    decreases trees,
{
    if trees.len() == 0 {
        0
    } else {
        sizes(trees.drop_last()) + size(trees.last())
    }
}

impl WalkView {
    pub open spec fn wanted(self) -> Wanted {
        Wanted { excludes: self.excludes, only_files: self.only_files }
    }
}

/// What a walk comes to find: what it has found, and the files of the trees
/// that it still has to look at, the last first. Of the tree that it begins at
/// the top is never left out.
pub open spec fn outlook(w: WalkView, trees: Seq<DirTree>) -> Seq<WalkItemView> {
    w.found + if w.at_start && trees.len() > 0 {
        contents(w.wanted(), trees.last()) + listings(w.wanted(), trees.drop_last().reverse())
    } else {
        listings(w.wanted(), trees.reverse())
    }
}

/// The trees that a walk still has to look at after the next.
pub open spec fn trees_left(w: WalkView, trees: Seq<DirTree>) -> Seq<DirTree> {
    match trees.last() {
        DirTree::Dir { item, kids } => if is_passed_over(w.excludes, w.at_start, item) {
            trees.drop_last()
        } else {
            trees.drop_last() + kids.reverse()
        },
        DirTree::Leaf { .. } => trees.drop_last(),
    }
}

/// The walk after the next item, which is at the top of `tree`; a directory's
/// children may be read in any order.
pub open spec fn walked_on(w: WalkView, tree: DirTree, children: Seq<WalkItemView>) -> WalkView {
    match tree {
        DirTree::Dir { item, .. } => after_dir(taken_up(w), w.at_start, item, children),
        DirTree::Leaf { item, is_file } => after_leaf(taken_up(w), w.at_start, item, is_file),
    }
}

/// The files of a single tree.
proof fn lemma_one(wanted: Wanted, tree: DirTree)
    ensures
        listings(wanted, seq![tree]) == listing(wanted, tree),
{
    reveal_with_fuel(listings, 2);
    let one = seq![tree];
    assert(one.drop_last() =~= Seq::empty());
    assert(listings(wanted, one) =~= listing(wanted, tree));
}

/// The size of a single tree.
proof fn lemma_one_size(tree: DirTree)
    ensures
        sizes(seq![tree]) == size(tree),
{
    reveal_with_fuel(sizes, 2);
    assert(seq![tree].drop_last() =~= Seq::empty());
}

proof fn lemma_listings_join(wanted: Wanted, a: Seq<DirTree>, b: Seq<DirTree>)
    ensures
        listings(wanted, a + b) == listings(wanted, a) + listings(wanted, b),
    decreases b.len(),
{
    if b.len() == 0 {
        assert(a + b =~= a);
    } else {
        assert((a + b).drop_last() =~= a + b.drop_last());
        lemma_listings_join(wanted, a, b.drop_last());
        assert(listings(wanted, a + b) =~= listings(wanted, a) + listings(wanted, b));
    }
}

proof fn lemma_sizes_join(a: Seq<DirTree>, b: Seq<DirTree>)
    ensures
        sizes(a + b) == sizes(a) + sizes(b),
    decreases b.len(),
{
    if b.len() == 0 {
        assert(a + b =~= a);
    } else {
        assert((a + b).drop_last() =~= a + b.drop_last());
        lemma_sizes_join(a, b.drop_last());
    }
}

proof fn lemma_sizes_reverse(a: Seq<DirTree>)
    ensures
        sizes(a.reverse()) == sizes(a),
    decreases a.len(),
{
    if a.len() > 0 {
        lemma_sizes_reverse(a.drop_last());
        let one = seq![a.last()];
        lemma_one_size(a.last());
        assert(a.reverse() =~= one + a.drop_last().reverse());
        lemma_sizes_join(one, a.drop_last().reverse());
    }
}

/// A walk through trees comes to find their files without what is left out,
/// in order: each step leaves what it comes to find as it was, and less to
/// look at.
pub proof fn law_walk_step(w: WalkView, trees: Seq<DirTree>, children: Seq<WalkItemView>)
    requires
        trees.len() > 0,
        w.stack == tops(trees),
        trees.last() matches DirTree::Dir { kids, .. } ==> items_sorted(children) == tops(kids),
    ensures
        walked_on(w, trees.last(), children).stack == tops(trees_left(w, trees)),
        outlook(walked_on(w, trees.last(), children), trees_left(w, trees)) == outlook(w, trees),
        sizes(trees_left(w, trees)) < sizes(trees),
{
    let tree = trees.last();
    let rest = trees.drop_last();
    let next = walked_on(w, tree, children);
    let left = trees_left(w, trees);
    let one = seq![tree];
    let wanted = w.wanted();
    assert(trees.reverse() =~= one + rest.reverse());
    lemma_listings_join(wanted, one, rest.reverse());
    lemma_one(wanted, tree);
    assert(tops(rest) =~= w.stack.drop_last());
    assert(sizes(trees) == sizes(rest) + size(tree));
    let ahead = if w.at_start {
        contents(wanted, tree)
    } else {
        listing(wanted, tree)
    };
    assert(outlook(w, trees) =~= w.found + (ahead + listings(wanted, rest.reverse())));
    assert(next.wanted() == wanted);
    if is_passed_over(w.excludes, w.at_start, tree.top()) {
        assert(next.stack =~= tops(left));
        assert(outlook(next, left) =~= outlook(w, trees));
    } else {
        match tree {
            DirTree::Leaf { .. } => {
                assert(next.stack =~= tops(left));
                assert(outlook(next, left) =~= outlook(w, trees));
            },
            DirTree::Dir { kids, .. } => {
                assert(tops(kids).reverse() =~= tops(kids.reverse()));
                assert(next.stack =~= tops(left));
                assert(left.reverse() =~= kids + rest.reverse()) by {
                    assert(kids.reverse().reverse() =~= kids);
                }
                lemma_listings_join(wanted, kids, rest.reverse());
                assert(outlook(next, left) =~= outlook(w, trees));
                lemma_sizes_join(rest, kids.reverse());
                lemma_sizes_reverse(kids);
            },
        }
    }
}

/// A walk comes to find, at its beginning, the files of the tree that it
/// begins at, whatever the name at its top: for a directory the files in it
/// without what is left out. At its end it has found what it came to find.
pub proof fn law_walk_ends(root: DirTree, start: WalkView, last: WalkView)
    requires
        start.at_start,
        start.found.len() == 0,
    ensures
        outlook(start, seq![root]) == contents(start.wanted(), root),
        root matches DirTree::Dir { kids, .. } ==> outlook(start, seq![root]) == listings(start.wanted(), kids),
        outlook(last, Seq::empty()) == last.found,
{
    let one = seq![root];
    let none = Seq::<DirTree>::empty();
    assert(one.drop_last().reverse() =~= none);
    assert(none.reverse() =~= none);
    assert(outlook(start, one) =~= contents(start.wanted(), root));
    assert(outlook(last, none) =~= last.found);
}

/// What is no directory is found just where it is not left out, by its name or
/// as no regular file where only those are wanted; the item that the walk begins
/// at is not left out by its name. Nothing else changes.
pub proof fn law_leaf(w: WalkView, is_start: bool, item: WalkItemView, is_file: bool)
    ensures
        ({
            let next = after_leaf(w, is_start, item, is_file);
            let left_out = !is_start && exists|i: int|
                0 <= i < w.excludes.len() && item.name == Some(#[trigger] w.excludes[i]);
            &&& !left_out && (is_file || !w.only_files) ==> next.found == w.found + seq![item]
            &&& left_out || (!is_file && w.only_files) ==> next.found == w.found
            &&& next.stack == w.stack
            &&& next.excludes == w.excludes
            &&& next.only_files == w.only_files
            &&& next.at_start == w.at_start
        }),
{
    lemma_left_out(w.excludes, item);
    let next = after_leaf(w, is_start, item, is_file);
    if next != w {
        assert(next.found =~= w.found + seq![item]);
    }
}

proof fn lemma_left_out(excludes: Seq<Text>, item: WalkItemView)
    ensures
        is_left_out(excludes, item) <==> exists|i: int|
            0 <= i < excludes.len() && item.name == Some(#[trigger] excludes[i]),
{
    if is_left_out(excludes, item) {
        let i = choose|i: int| 0 <= i < excludes.len() && excludes[i] == item.name->0;
        assert(item.name == Some(excludes[i]));
    }
}

/// What is in a directory is looked at next, all of it, in the order of names,
/// before what was to be looked at before; unless the directory is left out by
/// its name, which the one that the walk begins at never is. Nothing else
/// changes.
pub proof fn law_dir(w: WalkView, is_start: bool, item: WalkItemView, children: Seq<WalkItemView>)
    ensures
        ({
            let next = after_dir(w, is_start, item, children);
            let n = w.stack.len() as int;
            let left_out = !is_start && exists|i: int|
                0 <= i < w.excludes.len() && item.name == Some(#[trigger] w.excludes[i]);
            &&& left_out ==> next.stack == w.stack
            &&& !left_out ==> {
                &&& next.stack.len() == n + children.len()
                &&& next.stack.take(n) == w.stack
                &&& forall|c: WalkItemView| #[trigger] next.stack.skip(n).contains(c) <==> children.contains(c)
                &&& forall|i: int, j: int|
                    n <= i < j < next.stack.len() ==> !bytes_lt(
                        (#[trigger] next.stack[i]).key,
                        (#[trigger] next.stack[j]).key,
                    )
            }
            &&& next.found == w.found
            &&& next.excludes == w.excludes
            &&& next.only_files == w.only_files
            &&& next.at_start == w.at_start
        }),
{
    lemma_left_out(w.excludes, item);
    if !is_passed_over(w.excludes, is_start, item) {
        let next = after_dir(w, is_start, item, children);
        let n = w.stack.len() as int;
        let key = |x: WalkItemView| x.key;
        let sorted = items_sorted(children);
        law_sorted_keeps_elements(children, key);
        law_sorted_ascends(children, key);
        assert(sorted == sorted_by(children, key));
        assert(next.stack.take(n) =~= w.stack);
        assert(next.stack.skip(n) =~= sorted.reverse());
        assert forall|c: WalkItemView| #[trigger] next.stack.skip(n).contains(c) <==> children.contains(c) by {
            assert(sorted_by(children, key).contains(c) <==> children.contains(c));
            let m = sorted.len() as int;
            if sorted.contains(c) {
                let k = choose|k: int| 0 <= k < m && sorted[k] == c;
                assert(sorted.reverse()[m - 1 - k] == c);
            }
            if sorted.reverse().contains(c) {
                let k = choose|k: int| 0 <= k < m && sorted.reverse()[k] == c;
                assert(sorted[m - 1 - k] == c);
            }
        }
        assert forall|i: int, j: int| n <= i < j < next.stack.len() implies !bytes_lt(
            (#[trigger] next.stack[i]).key,
            (#[trigger] next.stack[j]).key,
        ) by {
            let m = sorted.len() as int;
            assert(next.stack[i] == sorted[m - 1 - (i - n)]);
            assert(next.stack[j] == sorted[m - 1 - (j - n)]);
            assert(!bytes_lt(
                key(sorted_by(children, key)[m - 1 - (i - n)]),
                key(sorted_by(children, key)[m - 1 - (j - n)]),
            ));
        }
    }
}

/// To take up an item takes the last one off what is to be looked at; the walk
/// has then begun, and has found no more.
pub proof fn law_take_up(w: WalkView)
    requires
        w.stack.len() > 0,
    ensures
        taken_up(w).stack + seq![w.stack.last()] == w.stack,
        !taken_up(w).at_start,
        taken_up(w).found == w.found,
        taken_up(w).excludes == w.excludes,
        taken_up(w).only_files == w.only_files,
{
    assert(taken_up(w).stack + seq![w.stack.last()] =~= w.stack);
}

/// The files of trees are those of each in its turn. Of one tree whose name is
/// left out there are none; of what is no directory there is itself, unless only
/// regular files are wanted and it is none; and of a directory there are those
/// of what is in it.
pub proof fn law_listing(wanted: Wanted, a: Seq<DirTree>, b: Seq<DirTree>, tree: DirTree)
    ensures
        listings(wanted, a + b) == listings(wanted, a) + listings(wanted, b),
        ({
            let files = listings(wanted, seq![tree]);
            let left_out = exists|i: int|
                0 <= i < wanted.excludes.len() && tree.top().name == Some(#[trigger] wanted.excludes[i]);
            &&& left_out ==> files.len() == 0
            &&& !left_out ==> (tree matches DirTree::Dir { kids, .. } ==> files == listings(wanted, kids))
            &&& !left_out ==> (tree matches DirTree::Leaf { item, is_file } ==> {
                &&& is_file || !wanted.only_files ==> files == seq![item]
                &&& !is_file && wanted.only_files ==> files.len() == 0
            })
        }),
{
    lemma_listings_join(wanted, a, b);
    lemma_one(wanted, tree);
    lemma_left_out(wanted.excludes, tree.top());
}

/// A walk begins with its first item to be looked at, nothing else, and nothing
/// found.
pub proof fn law_walk_begins(root: WalkItem, excludes: Vec<String>, only_files: bool, walk: Walk)
    requires
        call_ensures(Walk::new, (root, excludes, only_files), walk),
    ensures
        walk@.at_start,
        walk@.stack.len() == 1,
        walk@.stack[0] == root@,
        walk@.found.len() == 0,
        walk@.excludes == views(excludes@),
        walk@.only_files == only_files,
{
}

} // verus!
