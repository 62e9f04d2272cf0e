use vstd::prelude::*;
use vstd::string::*;

verus! {

/// One item of a directory listing: its name and whether it is a directory.
#[derive(Debug)]
pub struct Entry {
    pub name: String,
    pub is_dir: bool,
}

/// A listing entry as plain values.
pub open spec fn entry_view(e: Entry) -> (Seq<char>, bool) {
    (e.name@, e.is_dir)
}

/// A listing as plain values.
pub open spec fn listing_view(l: Seq<Entry>) -> Seq<(Seq<char>, bool)> {
    l.map_values(|e: Entry| entry_view(e))
}

/// A directory, by its path relative to the root, with the entries it held.
pub type Listing = (Seq<char>, Seq<(Seq<char>, bool)>);

/// The root-relative path of `name` inside directory `dir`, with `/`
/// between components; the root itself is the empty path.
pub open spec fn child_path(dir: Seq<char>, name: Seq<char>) -> Seq<char> {
    if dir.len() == 0 {
        name
    } else {
        dir + seq!['/'] + name
    }
}

/// The paths of the entries of `es` that are not directories, in order.
pub open spec fn file_paths(dir: Seq<char>, es: Seq<(Seq<char>, bool)>) -> Seq<Seq<char>>
    decreases es.len(),
{
    if es.len() == 0 {
        seq![]
    } else {
        let rest = file_paths(dir, es.drop_last());
        if es.last().1 {
            rest
        } else {
            rest.push(child_path(dir, es.last().0))
        }
    }
}

/// The paths of the entries of `es` that are directories, in order.
pub open spec fn dir_paths(dir: Seq<char>, es: Seq<(Seq<char>, bool)>) -> Seq<Seq<char>>
    decreases es.len(),
{
    if es.len() == 0 {
        seq![]
    } else {
        let rest = dir_paths(dir, es.drop_last());
        if es.last().1 {
            rest.push(child_path(dir, es.last().0))
        } else {
            rest
        }
    }
}

/// The file paths of a sequence of listings, listing by listing.
pub open spec fn walked_files(log: Seq<Listing>) -> Seq<Seq<char>>
    decreases log.len(),
{
    if log.len() == 0 {
        seq![]
    } else {
        walked_files(log.drop_last()) + file_paths(log.last().0, log.last().1)
    }
}

/// The directories that were listed.
pub open spec fn dirs_of(log: Seq<Listing>) -> Seq<Seq<char>> {
    log.map_values(|l: Listing| l.0)
}

/// Directory `c` was listed or waits to be.
pub open spec fn covered(pending: Seq<Seq<char>>, log: Seq<Listing>, c: Seq<char>) -> bool {
    dirs_of(log).contains(c) || pending.contains(c)
}

/// The root is covered, and so is every subdirectory that a listing named.
pub open spec fn walk_closed(pending: Seq<Seq<char>>, log: Seq<Listing>) -> bool {
    &&& covered(pending, log, seq![])
    &&& forall|j: int, k: int|
        0 <= j < log.len() && 0 <= k < log[j].1.len() && log[j].1[k].1 ==> #[trigger] covered(
            pending,
            log,
            child_path(log[j].0, log[j].1[k].0),
        )
}

/// Some listing of `parent` names `c` as a subdirectory.
pub open spec fn listed_child(log: Seq<Listing>, parent: Seq<char>, c: Seq<char>) -> bool {
    exists|j: int, k: int|
        0 <= j < log.len() && log[j].0 == parent && 0 <= k < log[j].1.len() && log[j].1[k].1 && c
            == #[trigger] child_path(log[j].0, log[j].1[k].0)
}

/// `chain` descends from the root, each step a subdirectory that a listing
/// of the step before named.
pub open spec fn listed_descent(log: Seq<Listing>, chain: Seq<Seq<char>>) -> bool {
    &&& chain.len() > 0
    &&& chain[0] == Seq::<char>::empty()
    &&& forall|i: int| 0 <= i < chain.len() - 1 ==> listed_child(log, #[trigger] chain[i], chain[i + 1])
}

/// Directory `d` is the root or was reached from it through listings.
pub open spec fn rooted(log: Seq<Listing>, d: Seq<char>) -> bool {
    exists|chain: Seq<Seq<char>>| #[trigger] listed_descent(log, chain) && chain.last() == d
}

/// Every directory that the walk has met was reached from the root.
pub open spec fn walk_rooted(pending: Seq<Seq<char>>, log: Seq<Listing>) -> bool {
    forall|d: Seq<char>| #[trigger] covered(pending, log, d) ==> rooted(log, d)
}

/// A depth-first walk of a directory tree, driven one listing at a time.
///
/// The walk holds the directories still to list, by root-relative path, and
/// the root-relative paths of the files found so far.
pub struct Walk {
    pending: Vec<String>,
    files: Vec<String>,
    log: Ghost<Seq<Listing>>,
}

impl Walk {
    /// The directories still to list; the next one is the last.
    pub closed spec fn pending(&self) -> Seq<Seq<char>> {
        self.pending@.map_values(|s: String| s@)
    }

    /// The files found so far.
    pub closed spec fn files(&self) -> Seq<Seq<char>> {
        self.files@.map_values(|s: String| s@)
    }

    /// The listings recorded so far, in order.
    pub closed spec fn listings(&self) -> Seq<Listing> {
        self.log@
    }

    /// The files found are those of the listings recorded, and no
    /// directory that the walk has met is lost.
    pub open spec fn wf(&self) -> bool {
        &&& self.files() == walked_files(self.listings())
        &&& walk_closed(self.pending(), self.listings())
        &&& walk_rooted(self.pending(), self.listings())
    }

    /// A walk that has only the root to list.
    pub fn new() -> (r: Walk)
        ensures
            r.wf(),
            r.pending() == seq![Seq::<char>::empty()],
            r.files() == Seq::<Seq<char>>::empty(),
            r.listings() == Seq::<Listing>::empty(),
    {
        let mut pending = Vec::new();
        pending.push(String::new());
        let r = Walk { pending, files: Vec::new(), log: Ghost(Seq::empty()) };
        assert(r.pending() =~= seq![Seq::<char>::empty()]);
        assert(r.pending()[0] == Seq::<char>::empty());
        assert(r.files() =~= Seq::<Seq<char>>::empty());
        assert forall|d: Seq<char>| #[trigger] covered(r.pending(), r.listings(), d) implies rooted(
            r.listings(),
            d,
        ) by {
            let i = choose|i: int| 0 <= i < r.pending().len() && r.pending()[i] == d;
            let chain = seq![d];
            assert(listed_descent(r.listings(), chain));
        }
        r
    }

    /// The directory to list next, `None` once the walk is complete.
    pub fn next_directory(&self) -> (r: Option<String>)
        ensures
            r is None <==> self.pending().len() == 0,
            r matches Some(d) ==> d@ == self.pending().last(),
    {
        let n = self.pending.len();
        if n == 0 {
            None
        } else {
            Some(self.pending[n - 1].clone())
        }
    }

    /// The files found, by root-relative path.
    pub fn into_files(self) -> (r: Vec<String>)
        ensures
            r@.map_values(|s: String| s@) == self.files(),
    {
        self.files
    }
}

/// Every directory entry of `es` appears among `dir_paths(dir, es)`.
proof fn lemma_dir_paths_hold_subdirs(dir: Seq<char>, es: Seq<(Seq<char>, bool)>, k: int)
    requires
        0 <= k < es.len(),
        es[k].1,
    ensures
        dir_paths(dir, es).contains(child_path(dir, es[k].0)),
    decreases es.len(),
{
    let c = child_path(dir, es[k].0);
    if k == es.len() - 1 {
        assert(dir_paths(dir, es).last() == c);
    } else {
        lemma_dir_paths_hold_subdirs(dir, es.drop_last(), k);
        let i = choose|i: int|
            0 <= i < dir_paths(dir, es.drop_last()).len() && dir_paths(dir, es.drop_last())[i]
                == c;
        assert(dir_paths(dir, es)[i] == c);
    }
}

/// Every member of `dir_paths(dir, es)` is the path of a directory entry.
proof fn lemma_dir_paths_are_subdirs(dir: Seq<char>, es: Seq<(Seq<char>, bool)>, i: int)
    requires
        0 <= i < dir_paths(dir, es).len(),
    ensures
        exists|k: int|
            0 <= k < es.len() && es[k].1 && dir_paths(dir, es)[i] == #[trigger] child_path(
                dir,
                es[k].0,
            ),
    decreases es.len(),
{
    let init = es.drop_last();
    if i < dir_paths(dir, init).len() {
        lemma_dir_paths_are_subdirs(dir, init, i);
        let k = choose|k: int|
            0 <= k < init.len() && init[k].1 && dir_paths(dir, init)[i] == #[trigger] child_path(
                dir,
                init[k].0,
            );
        assert(es[k] == init[k]);
    } else {
        assert(es[es.len() - 1] == es.last());
    }
}

/// A descent through listings stays one when a listing is added.
proof fn lemma_rooted_grows(log: Seq<Listing>, l: Listing, d: Seq<char>)
    requires
        rooted(log, d),
    ensures
        rooted(log.push(l), d),
{
    let log2 = log.push(l);
    let chain = choose|chain: Seq<Seq<char>>| #[trigger] listed_descent(log, chain) && chain.last() == d;
    assert forall|i: int| 0 <= i < chain.len() - 1 implies listed_child(log2, #[trigger] chain[i], chain[i + 1]) by {
        assert(listed_child(log, chain[i], chain[i + 1]));
        let (j, k) = choose|j: int, k: int|
            0 <= j < log.len() && log[j].0 == chain[i] && 0 <= k < log[j].1.len() && log[j].1[k].1
                && chain[i + 1] == #[trigger] child_path(log[j].0, log[j].1[k].0);
        assert(log2[j] == log[j]);
    }
    assert(listed_descent(log2, chain));
}

/// Recording the listing of the last pending directory keeps every
/// directory met reachable from the root.
proof fn lemma_record_keeps_rooted(
    pending: Seq<Seq<char>>,
    log: Seq<Listing>,
    es: Seq<(Seq<char>, bool)>,
)
    requires
        pending.len() > 0,
        walk_rooted(pending, log),
    ensures
        walk_rooted(
            pending.drop_last() + dir_paths(pending.last(), es),
            log.push((pending.last(), es)),
        ),
{
    let d = pending.last();
    let p2 = pending.drop_last() + dir_paths(d, es);
    let l2 = log.push((d, es));
    assert(dirs_of(l2) =~= dirs_of(log).push(d));
    assert(covered(pending, log, d)) by {
        assert(pending[pending.len() - 1] == d);
    }
    lemma_rooted_grows(log, (d, es), d);
    assert forall|c: Seq<char>| #[trigger] covered(p2, l2, c) implies rooted(l2, c) by {
        if dirs_of(l2).contains(c) {
            let i = choose|i: int| 0 <= i < dirs_of(l2).len() && dirs_of(l2)[i] == c;
            if i < log.len() {
                assert(dirs_of(log)[i] == c);
                assert(covered(pending, log, c));
                lemma_rooted_grows(log, (d, es), c);
            }
        } else {
            let i = choose|i: int| 0 <= i < p2.len() && p2[i] == c;
            if i < pending.len() - 1 {
                assert(pending[i] == c);
                assert(covered(pending, log, c));
                lemma_rooted_grows(log, (d, es), c);
            } else {
                let m = i - (pending.len() - 1);
                assert(dir_paths(d, es)[m] == c);
                lemma_dir_paths_are_subdirs(d, es, m);
                let k = choose|k: int|
                    0 <= k < es.len() && es[k].1 && dir_paths(d, es)[m] == #[trigger] child_path(
                        d,
                        es[k].0,
                    );
                let chain = choose|chain: Seq<Seq<char>>|
                    #[trigger] listed_descent(l2, chain) && chain.last() == d;
                let chain2 = chain.push(c);
                let j = log.len() as int;
                assert(l2[j] == (d, es));
                assert(l2[j].1[k] == es[k]);
                assert(c == child_path(l2[j].0, l2[j].1[k].0));
                assert(listed_child(l2, d, c));
                assert forall|n: int| 0 <= n < chain2.len() - 1 implies listed_child(
                    l2,
                    #[trigger] chain2[n],
                    chain2[n + 1],
                ) by {
                    if n < chain.len() - 1 {
                        assert(chain2[n] == chain[n] && chain2[n + 1] == chain[n + 1]);
                        assert(listed_child(l2, chain[n], chain[n + 1]));
                    }
                }
                assert(listed_descent(l2, chain2));
                assert(chain2.last() == c);
            }
        }
    }
}

/// Recording the listing of the last pending directory keeps the walk closed.
proof fn lemma_record_keeps_closed(
    pending: Seq<Seq<char>>,
    log: Seq<Listing>,
    es: Seq<(Seq<char>, bool)>,
)
    requires
        pending.len() > 0,
        walk_closed(pending, log),
    ensures
        walk_closed(
            pending.drop_last() + dir_paths(pending.last(), es),
            log.push((pending.last(), es)),
        ),
{
    let d = pending.last();
    let p2 = pending.drop_last() + dir_paths(d, es);
    let l2 = log.push((d, es));
    assert(dirs_of(l2) =~= dirs_of(log).push(d));
    assert forall|c: Seq<char>| covered(pending, log, c) implies covered(p2, l2, c) by {
        if dirs_of(log).contains(c) {
            let i = choose|i: int| 0 <= i < dirs_of(log).len() && dirs_of(log)[i] == c;
            assert(dirs_of(l2)[i] == c);
        } else {
            let i = choose|i: int| 0 <= i < pending.len() && pending[i] == c;
            if i == pending.len() - 1 {
                assert(dirs_of(l2)[log.len() as int] == c);
            } else {
                assert(p2[i] == c);
            }
        }
    }
    assert(covered(p2, l2, seq![]));
    assert forall|j: int, k: int|
        0 <= j < l2.len() && 0 <= k < l2[j].1.len() && l2[j].1[k].1 implies #[trigger] covered(
        p2,
        l2,
        child_path(l2[j].0, l2[j].1[k].0),
    ) by {
        if j < log.len() {
            assert(l2[j] == log[j]);
            assert(covered(pending, log, child_path(log[j].0, log[j].1[k].0)));
        } else {
            let c = child_path(d, es[k].0);
            lemma_dir_paths_hold_subdirs(d, es, k);
            let i = choose|i: int| 0 <= i < dir_paths(d, es).len() && dir_paths(d, es)[i] == c;
            assert(p2[pending.len() - 1 + i] == c);
        }
    }
}

/// The root-relative path of `name` inside `dir`.
fn child_path_of(dir: &String, name: &String) -> (r: String)
    ensures
        r@ == child_path(dir@, name@),
{
    if dir.as_str().unicode_len() == 0 {
        name.clone()
    } else {
        proof {
            reveal_strlit("/");
        }
        let mut r = dir.clone();
        r.append("/");
        r.append(name.as_str());
        assert(r@ =~= child_path(dir@, name@));
        r
    }
}

/// Takes the listing of the directory that the walk names next: its files
/// join the files found, its subdirectories the directories to list.
pub fn traverse_directory(walk: &mut Walk, listing: &Vec<Entry>)
    requires
        old(walk).wf(),
        old(walk).pending().len() > 0,
    ensures
        final(walk).wf(),
        final(walk).files() == old(walk).files() + file_paths(
            old(walk).pending().last(),
            listing_view(listing@),
        ),
        final(walk).pending() == old(walk).pending().drop_last() + dir_paths(
            old(walk).pending().last(),
            listing_view(listing@),
        ),
        final(walk).listings() == old(walk).listings().push(
            (old(walk).pending().last(), listing_view(listing@)),
        ),
{
    let ghost pending0 = walk.pending();
    let ghost files0 = walk.files();
    let ghost es = listing_view(listing@);
    let dir = match walk.pending.pop() {
        Some(d) => d,
        None => {
            return;
        },
    };
    assert(walk.pending() =~= pending0.drop_last());
    let ghost d = dir@;
    assert(d == pending0.last());
    let mut k: usize = 0;
    while k < listing.len()
        invariant
            0 <= k <= listing@.len(),
            pending0.len() > 0,
            es == listing_view(listing@),
            d == dir@,
            walk.files() == files0 + file_paths(d, es.subrange(0, k as int)),
            walk.pending() == pending0.drop_last() + dir_paths(d, es.subrange(0, k as int)),
            walk.log == old(walk).log,
        decreases listing@.len() - k,
    {
        let e = &listing[k];
        let p = child_path_of(&dir, &e.name);
        let ghost before = es.subrange(0, k as int);
        let ghost after = es.subrange(0, k + 1);
        assert(after.drop_last() =~= before);
        assert(after.last() == entry_view(*e));
        let ghost pv = walk.pending();
        let ghost fv = walk.files();
        if e.is_dir {
            walk.pending.push(p);
            assert(walk.pending() =~= pv.push(p@));
            assert(dir_paths(d, after) == dir_paths(d, before).push(p@));
            assert(walk.pending() =~= pending0.drop_last() + dir_paths(d, after));
        } else {
            walk.files.push(p);
            assert(walk.files() =~= fv.push(p@));
            assert(file_paths(d, after) == file_paths(d, before).push(p@));
            assert(walk.files() =~= files0 + file_paths(d, after));
        }
        k = k + 1;
    }
    assert(es.subrange(0, es.len() as int) =~= es);
    proof {
        lemma_record_keeps_closed(pending0, walk.log@, es);
        lemma_record_keeps_rooted(pending0, walk.log@, es);
        let l2 = walk.log@.push((d, es));
        assert(l2.drop_last() =~= walk.log@);
        assert(walked_files(l2) == walked_files(walk.log@) + file_paths(d, es));
    }
    walk.log = Ghost(walk.log@.push((d, es)));
}

/// `p` is the path of an entry of `es`, listed in `dir`, that is not a
/// directory.
pub open spec fn names_file(dir: Seq<char>, es: Seq<(Seq<char>, bool)>, p: Seq<char>) -> bool {
    exists|k: int| 0 <= k < es.len() && !es[k].1 && p == #[trigger] child_path(dir, es[k].0)
}

/// In `tree`, which maps each directory's root-relative path to its
/// entries, `c` is a subdirectory of `parent`.
pub open spec fn child_dir(tree: Map<Seq<char>, Seq<(Seq<char>, bool)>>, parent: Seq<char>, c: Seq<char>) -> bool {
    tree.contains_key(parent) && exists|k: int|
        0 <= k < tree[parent].len() && tree[parent][k].1 && c == #[trigger] child_path(
            parent,
            tree[parent][k].0,
        )
}

/// `chain` descends from the root of `tree`, one subdirectory at a time.
pub open spec fn descent(tree: Map<Seq<char>, Seq<(Seq<char>, bool)>>, chain: Seq<Seq<char>>) -> bool {
    &&& chain.len() > 0
    &&& chain[0] == Seq::<char>::empty()
    &&& forall|i: int| 0 <= i < chain.len() - 1 ==> child_dir(tree, #[trigger] chain[i], chain[i + 1])
}

proof fn lemma_file_paths_membership(dir: Seq<char>, es: Seq<(Seq<char>, bool)>, p: Seq<char>)
    ensures
        file_paths(dir, es).contains(p) <==> names_file(dir, es, p),
    decreases es.len(),
{
    if es.len() > 0 {
        let init = es.drop_last();
        lemma_file_paths_membership(dir, init, p);
        if names_file(dir, init, p) {
            let k = choose|k: int|
                0 <= k < init.len() && !init[k].1 && p == #[trigger] child_path(dir, init[k].0);
            assert(es[k] == init[k]);
        }
        if names_file(dir, es, p) && !names_file(dir, init, p) {
            let k = choose|k: int|
                0 <= k < es.len() && !es[k].1 && p == #[trigger] child_path(dir, es[k].0);
            if k < init.len() {
                assert(init[k] == es[k]);
            }
            assert(k == es.len() - 1);
            assert(file_paths(dir, es).last() == p);
        }
        if file_paths(dir, es).contains(p) && !file_paths(dir, init).contains(p) {
            let i = choose|i: int| 0 <= i < file_paths(dir, es).len() && file_paths(dir, es)[i] == p;
            if !es.last().1 && i < file_paths(dir, init).len() {
                assert(file_paths(dir, init)[i] == p);
            }
            assert(es[es.len() - 1] == es.last());
        }
        if file_paths(dir, init).contains(p) {
            let i = choose|i: int|
                0 <= i < file_paths(dir, init).len() && file_paths(dir, init)[i] == p;
            assert(file_paths(dir, es)[i] == p);
        }
    }
}

proof fn lemma_walked_membership(log: Seq<Listing>, p: Seq<char>)
    ensures
        walked_files(log).contains(p) <==> exists|j: int|
            0 <= j < log.len() && #[trigger] names_file(log[j].0, log[j].1, p),
    decreases log.len(),
{
    if log.len() > 0 {
        let init = log.drop_last();
        let last = log.last();
        lemma_walked_membership(init, p);
        lemma_file_paths_membership(last.0, last.1, p);
        let a = walked_files(init);
        let b = file_paths(last.0, last.1);
        assert(walked_files(log) == a + b);
        if walked_files(log).contains(p) {
            let i = choose|i: int| 0 <= i < (a + b).len() && (a + b)[i] == p;
            if i < a.len() {
                assert(a[i] == p);
                let j = choose|j: int| 0 <= j < init.len() && #[trigger] names_file(init[j].0, init[j].1, p);
                assert(log[j] == init[j]);
            } else {
                assert(b[i - a.len()] == p);
                assert(names_file(log[log.len() - 1].0, log[log.len() - 1].1, p));
            }
        }
        if exists|j: int| 0 <= j < log.len() && #[trigger] names_file(log[j].0, log[j].1, p) {
            let j = choose|j: int| 0 <= j < log.len() && #[trigger] names_file(log[j].0, log[j].1, p);
            if j < init.len() {
                assert(init[j] == log[j]);
                let i = choose|i: int| 0 <= i < a.len() && a[i] == p;
                assert((a + b)[i] == p);
            } else {
                let i = choose|i: int| 0 <= i < b.len() && b[i] == p;
                assert((a + b)[a.len() + i] == p);
            }
        }
    }
}

proof fn lemma_descent_listed(
    w: Walk,
    tree: Map<Seq<char>, Seq<(Seq<char>, bool)>>,
    chain: Seq<Seq<char>>,
    i: int,
)
    requires
        w.wf(),
        w.pending().len() == 0,
        forall|j: int|
            0 <= j < w.listings().len() ==> tree.contains_key(#[trigger] w.listings()[j].0)
                && tree[w.listings()[j].0] == w.listings()[j].1,
        descent(tree, chain),
        0 <= i < chain.len(),
    ensures
        dirs_of(w.listings()).contains(chain[i]),
    decreases i,
{
    let log = w.listings();
    if i == 0 {
        let root: Seq<char> = seq![];
        assert(root =~= Seq::<char>::empty());
        assert(covered(w.pending(), log, root));
    } else {
        let parent = chain[i - 1];
        lemma_descent_listed(w, tree, chain, i - 1);
        assert(child_dir(tree, chain[i - 1], chain[i]));
        let k = choose|k: int|
            0 <= k < tree[parent].len() && tree[parent][k].1 && chain[i] == #[trigger] child_path(
                parent,
                tree[parent][k].0,
            );
        let j = choose|j: int| 0 <= j < dirs_of(log).len() && dirs_of(log)[j] == parent;
        assert(log[j].0 == parent);
        assert(tree[log[j].0] == log[j].1);
        assert(covered(w.pending(), log, child_path(log[j].0, log[j].1[k].0)));
    }
}

/// Where every listing came from `tree`, a descent through listings is a
/// descent of the tree.
proof fn lemma_listed_descent_is_descent(
    log: Seq<Listing>,
    tree: Map<Seq<char>, Seq<(Seq<char>, bool)>>,
    chain: Seq<Seq<char>>,
)
    requires
        listed_descent(log, chain),
        forall|j: int|
            0 <= j < log.len() ==> tree.contains_key(#[trigger] log[j].0) && tree[log[j].0]
                == log[j].1,
    ensures
        descent(tree, chain),
{
    assert forall|i: int| 0 <= i < chain.len() - 1 implies child_dir(tree, #[trigger] chain[i], chain[i + 1]) by {
        assert(listed_child(log, chain[i], chain[i + 1]));
        let (j, k) = choose|j: int, k: int|
            0 <= j < log.len() && log[j].0 == chain[i] && 0 <= k < log[j].1.len() && log[j].1[k].1
                && chain[i + 1] == #[trigger] child_path(log[j].0, log[j].1[k].0);
        assert(tree[log[j].0] == log[j].1);
        assert(chain[i + 1] == child_path(chain[i], tree[chain[i]][k].0));
    }
}

/// A walk that has listed every directory it met, each as `tree` holds it,
/// has found exactly the files of the tree: a path is among the files found
/// if and only if it is the path of a file held by a directory that lies at
/// some depth below the root. Empty directories add nothing.
pub proof fn lemma_complete_walk_finds_every_file(
    w: Walk,
    tree: Map<Seq<char>, Seq<(Seq<char>, bool)>>,
)
    requires
        w.wf(),
        w.pending().len() == 0,
        forall|j: int|
            0 <= j < w.listings().len() ==> tree.contains_key(#[trigger] w.listings()[j].0)
                && tree[w.listings()[j].0] == w.listings()[j].1,
    ensures
        forall|p: Seq<char>|
            #[trigger] w.files().contains(p) <==> exists|chain: Seq<Seq<char>>|
                #[trigger] descent(tree, chain) && names_file(chain.last(), tree[chain.last()], p),
{
    let log = w.listings();
    assert forall|p: Seq<char>| #[trigger] w.files().contains(p) <==> exists|chain: Seq<Seq<char>>|
        #[trigger] descent(tree, chain) && names_file(chain.last(), tree[chain.last()], p) by {
        lemma_walked_membership(log, p);
        if exists|chain: Seq<Seq<char>>|
            #[trigger] descent(tree, chain) && names_file(chain.last(), tree[chain.last()], p) {
            let chain = choose|chain: Seq<Seq<char>>|
                #[trigger] descent(tree, chain) && names_file(chain.last(), tree[chain.last()], p);
            let d = chain.last();
            lemma_descent_listed(w, tree, chain, chain.len() - 1);
            let j = choose|j: int| 0 <= j < dirs_of(log).len() && dirs_of(log)[j] == d;
            assert(log[j].0 == d);
            assert(names_file(log[j].0, log[j].1, p));
        }
        if w.files().contains(p) {
            let j = choose|j: int| 0 <= j < log.len() && #[trigger] names_file(log[j].0, log[j].1, p);
            let d = log[j].0;
            assert(dirs_of(log)[j] == d);
            assert(covered(w.pending(), log, d));
            let chain = choose|chain: Seq<Seq<char>>| #[trigger] listed_descent(log, chain) && chain.last() == d;
            lemma_listed_descent_is_descent(log, tree, chain);
            assert(names_file(chain.last(), tree[chain.last()], p));
        }
    }
}

/// Two walks that recorded the same listings have found the same files,
/// in the same order.
pub proof fn lemma_same_listings_same_files(a: Walk, b: Walk)
    requires
        a.wf(),
        b.wf(),
        a.listings() == b.listings(),
    ensures
        a.files() == b.files(),
{
}

} // verus!
