//! The scanner: walks a snapshot of a directory tree depth-first, prunes
//! every entry whose name is in the exclusion set, and reports each file
//! whose modification time lies strictly after the watermark.

use vstd::prelude::*;
use vstd::seq_lib::lemma_seq_concat_contains_all_elements;
use crate::change::{Change, ChangeModel, lemma_deep_view_concat, lemma_deep_view_push};

verus! {

/// The byte that separates path components.
pub const SLASH: u8 = 47;

/// One entry in a snapshot of a directory tree: a regular file with its
/// modification time (whole seconds since the epoch), or a directory with
/// its entries in listing order.
pub enum Node {
    File { name: Vec<u8>, mtime: u64 },
    Dir { name: Vec<u8>, entries: Vec<Node> },
}

/// The name (final path component) of a tree entry.
pub open spec fn node_name(n: Node) -> Seq<u8> {
    match n {
        Node::File { name, .. } => name@,
        Node::Dir { name, .. } => name@,
    }
}

/// The entries of a directory node; an empty sequence for a file.
pub open spec fn dir_entries(n: Node) -> Seq<Node> {
    match n {
        Node::Dir { entries, .. } => entries@,
        Node::File { .. } => Seq::empty(),
    }
}

/// The full path of an entry named `name` inside the directory at `base`.
pub open spec fn child_path(base: Seq<u8>, name: Seq<u8>) -> Seq<u8> {
    base + seq![SLASH] + name
}

/// The changes that a scan reports for the entry `n` standing in the
/// directory at `base`: nothing at all when the entry's name is excluded;
/// for a file, the file itself exactly when its modification time is
/// strictly greater than the watermark; for a directory, the changes of its
/// entries in order.
pub open spec fn scan_entry(n: Node, base: Seq<u8>, watermark: u64, excl: Seq<Seq<u8>>) -> Seq<
    ChangeModel,
>
    decreases n, 0int,
{
    if excl.contains(node_name(n)) {
        Seq::empty()
    } else {
        match n {
            Node::File { name, mtime } => if mtime > watermark {
                seq![ChangeModel { path: child_path(base, name@), timestamp: mtime }]
            } else {
                Seq::empty()
            },
            Node::Dir { name, entries } => scan_entries(
                entries@,
                0,
                child_path(base, name@),
                watermark,
                excl,
            ),
        }
    }
}

/// The changes reported for the entries of one directory at `base`, from
/// index `i` on.
pub open spec fn scan_entries(
    s: Seq<Node>,
    i: int,
    base: Seq<u8>,
    watermark: u64,
    excl: Seq<Seq<u8>>,
) -> Seq<ChangeModel>
    decreases s, s.len() - i,
{
    if i < 0 || i >= s.len() {
        Seq::empty()
    } else {
        scan_entry(s[i], base, watermark, excl) + scan_entries(s, i + 1, base, watermark, excl)
    }
}

/// Whether the pruned tree below the entry `n`, standing in the directory
/// at `base`, holds a file with full path `p` and modification time `t`.
/// Pruning removes every entry whose name is excluded, so nothing below an
/// excluded entry counts.
pub open spec fn entry_has_file(
    n: Node,
    base: Seq<u8>,
    excl: Seq<Seq<u8>>,
    p: Seq<u8>,
    t: u64,
) -> bool
    decreases n, 0int,
{
    if excl.contains(node_name(n)) {
        false
    } else {
        match n {
            Node::File { name, mtime } => p == child_path(base, name@) && t == mtime,
            Node::Dir { name, entries } => entries_have_file(
                entries@,
                0,
                child_path(base, name@),
                excl,
                p,
                t,
            ),
        }
    }
}

/// Whether one of the entries from index `i` on holds such a file.
pub open spec fn entries_have_file(
    s: Seq<Node>,
    i: int,
    base: Seq<u8>,
    excl: Seq<Seq<u8>>,
    p: Seq<u8>,
    t: u64,
) -> bool
    decreases s, s.len() - i,
{
    if i < 0 || i >= s.len() {
        false
    } else {
        entry_has_file(s[i], base, excl, p, t) || entries_have_file(s, i + 1, base, excl, p, t)
    }
}

/// Law: a scan of the entry `n` reports a change with path `p` and
/// timestamp `t` exactly when the tree that remains after exclusion pruning
/// holds a file at `p` whose modification time is `t`, and `t` is strictly
/// greater than the watermark. In particular a file whose time equals the
/// watermark is left out, and nothing below an excluded name is reported.
pub proof fn lemma_scan_entry_characterizes(
    n: Node,
    base: Seq<u8>,
    watermark: u64,
    excl: Seq<Seq<u8>>,
)
    ensures
        forall|c: ChangeModel|
            #[trigger] scan_entry(n, base, watermark, excl).contains(c) <==> (entry_has_file(
                n,
                base,
                excl,
                c.path,
                c.timestamp,
            ) && c.timestamp > watermark),
    decreases n, 0int,
{
    if excl.contains(node_name(n)) {
        assert forall|c: ChangeModel| !(#[trigger] scan_entry(n, base, watermark, excl).contains(
            c,
        )) by {
            assert(scan_entry(n, base, watermark, excl) =~= Seq::<ChangeModel>::empty());
        }
    } else {
        match n {
            Node::File { name, mtime } => {
                if mtime > watermark {
                    let cm = ChangeModel { path: child_path(base, name@), timestamp: mtime };
                    assert forall|c: ChangeModel|
                        #[trigger] scan_entry(n, base, watermark, excl).contains(c) <==> (
                        entry_has_file(n, base, excl, c.path, c.timestamp) && c.timestamp
                            > watermark) by {
                        assert(seq![cm][0] == cm);
                        if scan_entry(n, base, watermark, excl).contains(c) {
                            let k = choose|k: int|
                                0 <= k < seq![cm].len() && seq![cm][k] == c;
                            assert(k == 0);
                            assert(c == cm);
                        }
                        if entry_has_file(n, base, excl, c.path, c.timestamp) && c.timestamp
                            > watermark {
                            assert(c =~= cm);
                            assert(scan_entry(n, base, watermark, excl).contains(cm));
                        }
                    }
                } else {
                    assert forall|c: ChangeModel| !(#[trigger] scan_entry(
                        n,
                        base,
                        watermark,
                        excl,
                    ).contains(c)) by {
                        assert(scan_entry(n, base, watermark, excl) =~= Seq::<
                            ChangeModel,
                        >::empty());
                    }
                }
            },
            Node::Dir { name, entries } => {
                lemma_scan_entries_characterize(
                    entries@,
                    0,
                    child_path(base, name@),
                    watermark,
                    excl,
                );
                assert forall|c: ChangeModel|
                    #[trigger] scan_entry(n, base, watermark, excl).contains(c) <==> (
                    entry_has_file(n, base, excl, c.path, c.timestamp) && c.timestamp
                        > watermark) by {
                    assert(scan_entry(n, base, watermark, excl) == scan_entries(
                        entries@,
                        0,
                        child_path(base, name@),
                        watermark,
                        excl,
                    ));
                    assert(entry_has_file(n, base, excl, c.path, c.timestamp)
                        == entries_have_file(
                        entries@,
                        0,
                        child_path(base, name@),
                        excl,
                        c.path,
                        c.timestamp,
                    ));
                }
            },
        }
    }
}

/// Law: the same characterisation for the entries of one directory, from
/// index `i` on.
pub proof fn lemma_scan_entries_characterize(
    s: Seq<Node>,
    i: int,
    base: Seq<u8>,
    watermark: u64,
    excl: Seq<Seq<u8>>,
)
    ensures
        forall|c: ChangeModel|
            #[trigger] scan_entries(s, i, base, watermark, excl).contains(c) <==> (
            entries_have_file(s, i, base, excl, c.path, c.timestamp) && c.timestamp > watermark),
    decreases s, s.len() - i,
{
    if i < 0 || i >= s.len() {
        assert forall|c: ChangeModel| !(#[trigger] scan_entries(s, i, base, watermark, excl)
            .contains(c)) by {
            assert(scan_entries(s, i, base, watermark, excl) =~= Seq::<ChangeModel>::empty());
        }
    } else {
        lemma_scan_entry_characterizes(s[i], base, watermark, excl);
        lemma_scan_entries_characterize(s, i + 1, base, watermark, excl);
        assert forall|c: ChangeModel|
            #[trigger] scan_entries(s, i, base, watermark, excl).contains(c) <==> (
            entries_have_file(s, i, base, excl, c.path, c.timestamp) && c.timestamp
                > watermark) by {
            lemma_seq_concat_contains_all_elements(
                scan_entry(s[i], base, watermark, excl),
                scan_entries(s, i + 1, base, watermark, excl),
                c,
            );
        }
    }
}

/// Law: an entry whose name is excluded contributes nothing at all,
/// whatever stands below it and however new its files are.
pub proof fn lemma_excluded_entry_reports_nothing(
    n: Node,
    base: Seq<u8>,
    watermark: u64,
    excl: Seq<Seq<u8>>,
)
    requires
        excl.contains(node_name(n)),
    ensures
        scan_entry(n, base, watermark, excl) == Seq::<ChangeModel>::empty(),
{
}

/// Law: every reported change is strictly newer than the watermark.
pub proof fn lemma_scan_reports_only_newer(
    s: Seq<Node>,
    i: int,
    base: Seq<u8>,
    watermark: u64,
    excl: Seq<Seq<u8>>,
)
    ensures
        forall|c: ChangeModel|
            #[trigger] scan_entries(s, i, base, watermark, excl).contains(c) ==> c.timestamp
                > watermark,
{
    lemma_scan_entries_characterize(s, i, base, watermark, excl);
}

/// Whether the tree below `n` holds no file at all (only directories).
pub open spec fn tree_has_no_files(n: Node) -> bool
    decreases n, 0int,
{
    match n {
        Node::File { .. } => false,
        Node::Dir { name: _, entries } => entries_hold_no_files(entries@, 0),
    }
}

/// Whether the entries from index `i` on hold no file at all.
pub open spec fn entries_hold_no_files(s: Seq<Node>, i: int) -> bool
    decreases s, s.len() - i,
{
    if i < 0 || i >= s.len() {
        true
    } else {
        tree_has_no_files(s[i]) && entries_hold_no_files(s, i + 1)
    }
}

/// Law: scanning a tree that holds no files reports nothing, whatever the
/// watermark and the exclusion set.
pub proof fn lemma_scan_no_files_is_empty(
    n: Node,
    base: Seq<u8>,
    watermark: u64,
    excl: Seq<Seq<u8>>,
)
    requires
        tree_has_no_files(n),
    ensures
        scan_entry(n, base, watermark, excl) == Seq::<ChangeModel>::empty(),
    decreases n, 0int,
{
    if excl.contains(node_name(n)) {
    } else {
        match n {
            Node::File { .. } => {
            },
            Node::Dir { name, entries } => {
                lemma_scan_entries_no_files_is_empty(
                    entries@,
                    0,
                    child_path(base, name@),
                    watermark,
                    excl,
                );
            },
        }
    }
}

/// Law: the same for the entries of one directory, from index `i` on.
pub proof fn lemma_scan_entries_no_files_is_empty(
    s: Seq<Node>,
    i: int,
    base: Seq<u8>,
    watermark: u64,
    excl: Seq<Seq<u8>>,
)
    requires
        entries_hold_no_files(s, i),
    ensures
        scan_entries(s, i, base, watermark, excl) == Seq::<ChangeModel>::empty(),
    decreases s, s.len() - i,
{
    if i < 0 || i >= s.len() {
    } else {
        lemma_scan_no_files_is_empty(s[i], base, watermark, excl);
        lemma_scan_entries_no_files_is_empty(s, i + 1, base, watermark, excl);
        assert(scan_entries(s, i, base, watermark, excl) =~= Seq::<ChangeModel>::empty());
    }
}

/// Law: a directory whose every entry bears an excluded name scans to an
/// empty report, whatever stands inside those entries and however new it
/// is.
pub proof fn lemma_all_entries_excluded_is_empty(
    s: Seq<Node>,
    i: int,
    base: Seq<u8>,
    watermark: u64,
    excl: Seq<Seq<u8>>,
)
    requires
        forall|j: int| i <= j < s.len() ==> excl.contains(#[trigger] node_name(s[j])),
    ensures
        scan_entries(s, i, base, watermark, excl) == Seq::<ChangeModel>::empty(),
    decreases s, s.len() - i,
{
    if i < 0 || i >= s.len() {
    } else {
        lemma_all_entries_excluded_is_empty(s, i + 1, base, watermark, excl);
        assert(excl.contains(node_name(s[i])));
        assert(scan_entry(s[i], base, watermark, excl) == Seq::<ChangeModel>::empty());
        assert(scan_entries(s, i + 1, base, watermark, excl) == Seq::<ChangeModel>::empty());
        assert(Seq::<ChangeModel>::empty() + Seq::<ChangeModel>::empty() =~= Seq::<
            ChangeModel,
        >::empty());
        assert(scan_entries(s, i, base, watermark, excl) =~= Seq::<ChangeModel>::empty());
    }
}

/// Law: the scan is a pure read of the snapshot: when nothing in the
/// pruned tree is strictly newer than the watermark, the report is empty,
/// so repeating the scan on an unchanged tree reports empty again.
pub proof fn lemma_unchanged_tree_scans_empty(
    s: Seq<Node>,
    i: int,
    base: Seq<u8>,
    watermark: u64,
    excl: Seq<Seq<u8>>,
)
    requires
        forall|p: Seq<u8>, t: u64|
            #[trigger] entries_have_file(s, i, base, excl, p, t) ==> t <= watermark,
    ensures
        scan_entries(s, i, base, watermark, excl) == Seq::<ChangeModel>::empty(),
{
    lemma_scan_entries_characterize(s, i, base, watermark, excl);
    let sc = scan_entries(s, i, base, watermark, excl);
    if sc.len() > 0 {
        assert(sc.contains(sc[0]));
        assert(false);
    }
    assert(sc =~= Seq::<ChangeModel>::empty());
}

/// True when the two byte strings hold the same bytes.
pub fn bytes_eq(a: &Vec<u8>, b: &Vec<u8>) -> (r: bool)
    ensures
        r == (a@ == b@),
{
    if a.len() != b.len() {
        return false;
    }
    let mut i: usize = 0;
    while i < a.len()
        invariant
            a@.len() == b@.len(),
            0 <= i <= a@.len(),
            forall|k: int| 0 <= k < i ==> a@[k] == b@[k],
        decreases a@.len() - i,
    {
        if a[i] != b[i] {
            return false;
        }
        i += 1;
    }
    proof {
        assert(a@ =~= b@);
    }
    true
}

/// True when `name` is one of the excluded names.
pub fn is_excluded(name: &Vec<u8>, exclusions: &Vec<Vec<u8>>) -> (r: bool)
    ensures
        r == exclusions.deep_view().contains(name@),
{
    let mut j: usize = 0;
    while j < exclusions.len()
        invariant
            0 <= j <= exclusions@.len(),
            forall|k: int| 0 <= k < j ==> exclusions.deep_view()[k] != name@,
        decreases exclusions@.len() - j,
    {
        proof {
            assert(exclusions.deep_view()[j as int] =~= exclusions@[j as int]@);
        }
        if bytes_eq(&exclusions[j], name) {
            return true;
        }
        j += 1;
    }
    false
}

/// Appends a separator and `name` to the path `base`.
pub fn join_path(base: &Vec<u8>, name: &Vec<u8>) -> (r: Vec<u8>)
    ensures
        r@ == child_path(base@, name@),
{
    let mut r: Vec<u8> = Vec::new();
    let mut i: usize = 0;
    while i < base.len()
        invariant
            0 <= i <= base@.len(),
            r@ == base@.take(i as int),
        decreases base@.len() - i,
    {
        r.push(base[i]);
        proof {
            assert(base@.take(i + 1 as int) =~= base@.take(i as int).push(base@[i as int]));
        }
        i += 1;
    }
    proof {
        assert(base@.take(base@.len() as int) =~= base@);
    }
    r.push(SLASH);
    let mut j: usize = 0;
    while j < name.len()
        invariant
            0 <= j <= name@.len(),
            r@ == base@ + seq![SLASH] + name@.take(j as int),
        decreases name@.len() - j,
    {
        r.push(name[j]);
        proof {
            assert(base@ + seq![SLASH] + name@.take(j + 1 as int) =~= (base@ + seq![SLASH]
                + name@.take(j as int)).push(name@[j as int]));
        }
        j += 1;
    }
    proof {
        assert(name@.take(name@.len() as int) =~= name@);
    }
    r
}

/// The name of an entry, for the exclusion test.
pub fn entry_name(n: &Node) -> (r: &Vec<u8>)
    ensures
        r@ == node_name(*n),
{
    match n {
        Node::File { name, .. } => name,
        Node::Dir { name, .. } => name,
    }
}

/// Depth-first scan of the directory snapshot `dir`, whose own full path is
/// `base`: reports, in traversal order, exactly the files strictly newer
/// than `watermark` in the tree that remains after pruning every entry
/// bearing an excluded name.
pub fn inspect_dir_for_changes(
    dir: &Node,
    base: &Vec<u8>,
    watermark: u64,
    exclusions: &Vec<Vec<u8>>,
) -> (changes: Vec<Change>)
    requires
        dir is Dir,
    ensures
        changes.deep_view() == scan_entries(
            dir_entries(*dir),
            0,
            base@,
            watermark,
            exclusions.deep_view(),
        ),
    decreases *dir,
{
    let mut changed: Vec<Change> = Vec::new();
    match dir {
        Node::Dir { name: _, entries } => {
            let ghost excl = exclusions.deep_view();
            let ghost full = scan_entries(entries@, 0, base@, watermark, excl);
            proof {
                assert(changed.deep_view() =~= Seq::<ChangeModel>::empty());
                assert(Seq::<ChangeModel>::empty() + full =~= full);
            }
            let mut i: usize = 0;
            while i < entries.len()
                invariant
                    0 <= i <= entries@.len(),
                    dir is Dir,
                    *entries == dir->Dir_entries,
                    excl == exclusions.deep_view(),
                    full == scan_entries(entries@, 0, base@, watermark, excl),
                    full == changed.deep_view() + scan_entries(
                        entries@,
                        i as int,
                        base@,
                        watermark,
                        excl,
                    ),
                decreases entries@.len() - i,
            {
                let ghost prev = changed.deep_view();
                let ghost here = scan_entry(entries@[i as int], base@, watermark, excl);
                let ghost next = scan_entries(entries@, i as int + 1, base@, watermark, excl);
                proof {
                    assert(scan_entries(entries@, i as int, base@, watermark, excl) == here + next);
                }
                let entry = &entries[i];
                if is_excluded(entry_name(entry), exclusions) {
                    proof {
                        assert(here =~= Seq::<ChangeModel>::empty());
                        assert(prev + (here + next) =~= prev + next);
                    }
                } else {
                    match entry {
                        Node::File { name, mtime } => {
                            if *mtime > watermark {
                                let p = join_path(base, name);
                                let m = *mtime;
                                let c = Change::new(p, m);
                                let ghost cg = c;
                                let ghost prev_vec = changed;
                                changed.push(c);
                                proof {
                                    let cm = ChangeModel {
                                        path: child_path(base@, name@),
                                        timestamp: m,
                                    };
                                    lemma_deep_view_push(changed, prev_vec, cg);
                                    assert(here =~= seq![cm]);
                                    assert(changed.deep_view() =~= prev.push(cm));
                                    assert(prev.push(cm) =~= prev + here);
                                    assert(prev + (here + next) =~= (prev + here) + next);
                                }
                            } else {
                                proof {
                                    assert(here =~= Seq::<ChangeModel>::empty());
                                    assert(prev + (here + next) =~= prev + next);
                                }
                            }
                        },
                        Node::Dir { name, entries: _ } => {
                            let sub_base = join_path(base, name);
                            proof {
                                assert(*entries == dir->Dir_entries);
                                assert(decreases_to!(*dir => dir->Dir_entries));
                                assert(decreases_to!(*entries => entries@));
                                assert(decreases_to!(entries@ => entries@[i as int]));
                                assert(decreases_to!(*dir => *entry));
                            }
                            let mut sub = inspect_dir_for_changes(
                                entry,
                                &sub_base,
                                watermark,
                                exclusions,
                            );
                            let ghost sub_model = sub.deep_view();
                            let ghost prev_vec = changed;
                            let ghost sub_vec = sub;
                            changed.append(&mut sub);
                            proof {
                                lemma_deep_view_concat(changed, prev_vec, sub_vec);
                                assert(here =~= sub_model);
                                assert(prev + (here + next) =~= (prev + sub_model) + next);
                            }
                        },
                    }
                }
                i += 1;
            }
            proof {
                assert(scan_entries(entries@, entries@.len() as int, base@, watermark, excl)
                    =~= Seq::<ChangeModel>::empty());
                assert(changed.deep_view() + Seq::<ChangeModel>::empty() =~= changed.deep_view());
            }
            changed
        },
        Node::File { .. } => {
            proof {
                assert(false);
            }
            changed
        },
    }
}

} // verus!
