//! Grouping of candidate files into file groups.
//!
//! Candidate files are partitioned into equivalence classes by a configurable
//! key: file name together with byte size, or byte size alone.  Files sharing
//! a key are presumed to be copies of one logical payload; only groups with
//! at least two members are worth merging.

use vstd::prelude::*;
use vstd::string::StringExecFns;

verus! {

/// Which key partitions candidate files into groups.
#[derive(Debug, Clone, Copy, PartialEq, Eq, Structural)]
pub enum DedupKey {
    /// Group by file name and byte size together.
    FilenameAndSize,
    /// Group by byte size alone.
    SizeOnly,
}

/// The key of one file group.
#[derive(Debug, Eq, Hash)]
pub enum GroupKey {
    /// File name and byte size.
    FilenameAndSize(String, u64),
    /// Byte size alone.
    SizeOnly(u64),
}

/// Two group keys agree: same kind, same name (by characters), same size.
pub open spec fn keys_match(a: GroupKey, b: GroupKey) -> bool {
    match (a, b) {
        (GroupKey::FilenameAndSize(n1, s1), GroupKey::FilenameAndSize(n2, s2)) => n1@ == n2@ && s1
            == s2,
        (GroupKey::SizeOnly(s1), GroupKey::SizeOnly(s2)) => s1 == s2,
        _ => false,
    }
}

impl PartialEq for GroupKey {
    fn eq(&self, other: &Self) -> bool {
        match (self, other) {
            (GroupKey::FilenameAndSize(n1, s1), GroupKey::FilenameAndSize(n2, s2)) => *n1 == *n2
                && *s1 == *s2,
            (GroupKey::SizeOnly(s1), GroupKey::SizeOnly(s2)) => *s1 == *s2,
            _ => false,
        }
    }
}

impl vstd::std_specs::cmp::PartialEqSpecImpl for GroupKey {
    open spec fn obeys_eq_spec() -> bool {
        true
    }

    open spec fn eq_spec(&self, other: &Self) -> bool {
        keys_match(*self, *other)
    }
}

/// One discovered candidate file: its path, its file name, its byte size.
#[derive(Debug)]
pub struct FileEntry {
    /// Full path of the file, as a string.
    pub path: String,
    /// The file's name (last path component).
    pub name: String,
    /// The file's length in bytes.
    pub size: u64,
}

/// A group of candidate files sharing one key.
#[derive(Debug)]
pub struct FileGroup {
    /// The key all members share.
    pub key: GroupKey,
    /// The members' paths, in discovery order.
    pub paths: Vec<String>,
}

/// `k` is the group key of a file with this name and size under `mode`.
pub open spec fn is_key_of(mode: DedupKey, name: Seq<char>, size: u64, k: GroupKey) -> bool {
    match mode {
        DedupKey::FilenameAndSize => k matches GroupKey::FilenameAndSize(n, s) && n@ == name && s
            == size,
        DedupKey::SizeOnly => k matches GroupKey::SizeOnly(s) && s == size,
    }
}

/// Builds the group key of one candidate file.
pub fn key_of(mode: DedupKey, entry: &FileEntry) -> (k: GroupKey)
    ensures
        is_key_of(mode, entry.name@, entry.size, k),
{
    match mode {
        DedupKey::FilenameAndSize => GroupKey::FilenameAndSize(entry.name.clone(), entry.size),
        DedupKey::SizeOnly => GroupKey::SizeOnly(entry.size),
    }
}

/// Does this candidate file belong under this key?
fn entry_matches(mode: DedupKey, entry: &FileEntry, k: &GroupKey) -> (b: bool)
    ensures
        b == is_key_of(mode, entry.name@, entry.size, *k),
{
    match mode {
        DedupKey::FilenameAndSize => match k {
            GroupKey::FilenameAndSize(n, s) => entry.name == *n && entry.size == *s,
            _ => false,
        },
        DedupKey::SizeOnly => match k {
            GroupKey::SizeOnly(s) => entry.size == *s,
            _ => false,
        },
    }
}

fn clone_key(k: &GroupKey) -> (r: GroupKey)
    ensures
        r == *k,
{
    match k {
        GroupKey::FilenameAndSize(n, s) => GroupKey::FilenameAndSize(n.clone(), *s),
        GroupKey::SizeOnly(s) => GroupKey::SizeOnly(*s),
    }
}

/// The paths of the entries whose key under `mode` is `k`, in input order.
pub open spec fn paths_for_key(entries: Seq<FileEntry>, mode: DedupKey, k: GroupKey) -> Seq<
    Seq<char>,
>
    decreases entries.len(),
{
    if entries.len() == 0 {
        Seq::empty()
    } else {
        let rest = paths_for_key(entries.drop_last(), mode, k);
        if is_key_of(mode, entries.last().name@, entries.last().size, k) {
            rest.push(entries.last().path@)
        } else {
            rest
        }
    }
}

/// Some key in the list is the group key for this name and size.
pub open spec fn has_key_for(
    keys: Seq<GroupKey>,
    mode: DedupKey,
    name: Seq<char>,
    size: u64,
) -> bool {
    exists|g: int| 0 <= g < keys.len() && is_key_of(mode, name, size, #[trigger] keys[g])
}

/// Some group carries the group key for this name and size.
pub open spec fn has_group_for(
    groups: Seq<FileGroup>,
    mode: DedupKey,
    name: Seq<char>,
    size: u64,
) -> bool {
    exists|g: int| 0 <= g < groups.len() && is_key_of(mode, name, size, (#[trigger] groups[g]).key)
}

/// Every entry's key under `mode` is the key of some group.
pub open spec fn every_entry_grouped(
    entries: Seq<FileEntry>,
    mode: DedupKey,
    groups: Seq<FileGroup>,
) -> bool {
    forall|e: int|
        0 <= e < entries.len() ==> has_group_for(
            groups,
            mode,
            (#[trigger] entries[e]).name@,
            entries[e].size,
        )
}

/// Partitions candidate files into groups by their key under `mode`.  The
/// groups carry pairwise distinct keys; each group holds exactly the paths of
/// the entries with its key, in input order; and every entry has a group.
pub fn group_files(entries: &Vec<FileEntry>, mode: DedupKey) -> (groups: Vec<FileGroup>)
    ensures
        forall|g1: int, g2: int|
            0 <= g1 < g2 < groups@.len() ==> !keys_match(
                (#[trigger] groups@[g1]).key,
                (#[trigger] groups@[g2]).key,
            ),
        forall|g: int|
            0 <= g < groups@.len() ==> (#[trigger] groups@[g]).paths@.map_values(|p: String| p@)
                == paths_for_key(entries@, mode, groups@[g].key),
        every_entry_grouped(entries@, mode, groups@),
{
    let n = entries.len();
    let mut keys: Vec<GroupKey> = Vec::new();
    let mut i: usize = 0;
    while i < n
        invariant
            n == entries@.len(),
            i <= n,
            forall|k1: int, k2: int|
                0 <= k1 < k2 < keys@.len() ==> !keys_match(
                    #[trigger] keys@[k1],
                    #[trigger] keys@[k2],
                ),
            forall|e: int|
                0 <= e < i ==> has_key_for(
                    keys@,
                    mode,
                    (#[trigger] entries@[e]).name@,
                    entries@[e].size,
                ),
        decreases n - i,
    {
        let kn = keys.len();
        let mut found = false;
        let mut j: usize = 0;
        while j < kn
            invariant
                kn == keys@.len(),
                j <= kn,
                n == entries@.len(),
                i < n,
                found ==> has_key_for(
                    keys@,
                    mode,
                    entries@[i as int].name@,
                    entries@[i as int].size,
                ),
                !found ==> forall|g: int|
                    0 <= g < j ==> !is_key_of(
                        mode,
                        entries@[i as int].name@,
                        entries@[i as int].size,
                        #[trigger] keys@[g],
                    ),
            decreases kn - j,
        {
            if entry_matches(mode, &entries[i], &keys[j]) {
                found = true;
            }
            j = j + 1;
        }
        if found {
            proof {
                assert(has_key_for(keys@, mode, entries@[i as int].name@, entries@[i as int].size));
            }
        }
        if !found {
            let k = key_of(mode, &entries[i]);
            proof {
                assert forall|k1: int| 0 <= k1 < keys@.len() implies !keys_match(
                    keys@[k1],
                    k,
                ) by {
                    if keys_match(keys@[k1], k) {
                        assert(is_key_of(
                            mode,
                            entries@[i as int].name@,
                            entries@[i as int].size,
                            keys@[k1],
                        ));
                    }
                }
            }
            let ghost before = keys@;
            keys.push(k);
            proof {
                assert(keys@[keys@.len() - 1] == k);
                assert forall|e: int| 0 <= e < i + 1 implies has_key_for(
                    keys@,
                    mode,
                    (#[trigger] entries@[e]).name@,
                    entries@[e].size,
                ) by {
                    if e < i {
                        assert(has_key_for(before, mode, entries@[e].name@, entries@[e].size));
                        let g0 = choose|g0: int|
                            0 <= g0 < before.len() && is_key_of(
                                mode,
                                entries@[e].name@,
                                entries@[e].size,
                                #[trigger] before[g0],
                            );
                        assert(keys@[g0] == before[g0]);
                        assert(is_key_of(mode, entries@[e].name@, entries@[e].size, keys@[g0]));
                    } else {
                        assert(is_key_of(
                            mode,
                            entries@[e].name@,
                            entries@[e].size,
                            keys@[keys@.len() - 1],
                        ));
                    }
                }
            }
        }
        i = i + 1;
    }
    let kn = keys.len();
    let mut groups: Vec<FileGroup> = Vec::new();
    let mut g: usize = 0;
    while g < kn
        invariant
            kn == keys@.len(),
            g <= kn,
            n == entries@.len(),
            groups@.len() == g,
            forall|g0: int| 0 <= g0 < g ==> (#[trigger] groups@[g0]).key == keys@[g0],
            forall|g0: int|
                0 <= g0 < g ==> (#[trigger] groups@[g0]).paths@.map_values(|p: String| p@)
                    == paths_for_key(entries@, mode, keys@[g0]),
        decreases kn - g,
    {
        let key = clone_key(&keys[g]);
        let mut paths: Vec<String> = Vec::new();
        let mut e: usize = 0;
        while e < n
            invariant
                n == entries@.len(),
                e <= n,
                kn == keys@.len(),
                g < kn,
                paths@.map_values(|p: String| p@) == paths_for_key(
                    entries@.take(e as int),
                    mode,
                    keys@[g as int],
                ),
            decreases n - e,
        {
            proof {
                assert(entries@.take(e + 1).drop_last() =~= entries@.take(e as int));
                assert(entries@.take(e + 1).last() == entries@[e as int]);
            }
            if entry_matches(mode, &entries[e], &keys[g]) {
                let ghost before = paths@;
                paths.push(entries[e].path.clone());
                proof {
                    assert(paths@.map_values(|p: String| p@) =~= before.map_values(
                        |p: String| p@,
                    ).push(entries@[e as int].path@));
                }
            }
            e = e + 1;
        }
        proof {
            assert(entries@.take(n as int) =~= entries@);
        }
        groups.push(FileGroup { key, paths });
        g = g + 1;
    }
    proof {
        assert forall|e: int| 0 <= e < entries@.len() implies has_group_for(
            groups@,
            mode,
            (#[trigger] entries@[e]).name@,
            entries@[e].size,
        ) by {
            assert(has_key_for(keys@, mode, entries@[e].name@, entries@[e].size));
            let g0 = choose|g0: int|
                0 <= g0 < keys@.len() && is_key_of(
                    mode,
                    entries@[e].name@,
                    entries@[e].size,
                    #[trigger] keys@[g0],
                );
            assert(groups@[g0].key == keys@[g0]);
            assert(is_key_of(mode, entries@[e].name@, entries@[e].size, groups@[g0].key));
        }
    }
    groups
}

/// The groups with at least two members, in order.
pub open spec fn big_groups(gs: Seq<FileGroup>) -> Seq<FileGroup>
    decreases gs.len(),
{
    if gs.len() == 0 {
        Seq::empty()
    } else {
        let rest = big_groups(gs.drop_last());
        if gs.last().paths@.len() >= 2 {
            rest.push(gs.last())
        } else {
            rest
        }
    }
}

/// Keeps only the groups with at least two members: a lone copy of a file
/// has nothing to be merged with.
pub fn groups_to_process(groups: Vec<FileGroup>) -> (r: Vec<FileGroup>)
    ensures
        r@ == big_groups(groups@),
{
    let ghost orig = groups@;
    let mut groups = groups;
    let mut r: Vec<FileGroup> = Vec::new();
    while groups.len() > 0
        invariant
            groups@.len() <= orig.len(),
            groups@ =~= orig.skip(orig.len() - groups@.len()),
            r@ == big_groups(orig.take(orig.len() - groups@.len())),
        decreases groups@.len(),
    {
        let ghost done = orig.len() - groups@.len();
        let g = groups.remove(0);
        proof {
            assert(g == orig[done]);
            assert(groups@ =~= orig.skip(done + 1));
            assert(orig.take(done + 1).drop_last() =~= orig.take(done));
            assert(orig.take(done + 1).last() == orig[done]);
        }
        if g.paths.len() >= 2 {
            r.push(g);
        }
    }
    proof {
        assert(orig.take(orig.len() as int) =~= orig);
    }
    r
}

/// The character of one decimal digit.
pub open spec fn digit_char(d: int) -> char {
    if d == 0 {
        '0'
    } else if d == 1 {
        '1'
    } else if d == 2 {
        '2'
    } else if d == 3 {
        '3'
    } else if d == 4 {
        '4'
    } else if d == 5 {
        '5'
    } else if d == 6 {
        '6'
    } else if d == 7 {
        '7'
    } else if d == 8 {
        '8'
    } else {
        '9'
    }
}

/// The decimal digits of `n`, most significant first.
pub open spec fn dec_str(n: nat) -> Seq<char>
    decreases n,
{
    if n < 10 {
        seq![digit_char(n as int)]
    } else {
        dec_str(n / 10).push(digit_char((n % 10) as int))
    }
}

fn digit_str(d: u64) -> (r: &'static str)
    requires
        d < 10,
    ensures
        r@ == seq![digit_char(d as int)],
{
    let r: &'static str = if d == 0 {
        "0"
    } else if d == 1 {
        "1"
    } else if d == 2 {
        "2"
    } else if d == 3 {
        "3"
    } else if d == 4 {
        "4"
    } else if d == 5 {
        "5"
    } else if d == 6 {
        "6"
    } else if d == 7 {
        "7"
    } else if d == 8 {
        "8"
    } else {
        "9"
    };
    proof {
        reveal_strlit("0");
        reveal_strlit("1");
        reveal_strlit("2");
        reveal_strlit("3");
        reveal_strlit("4");
        reveal_strlit("5");
        reveal_strlit("6");
        reveal_strlit("7");
        reveal_strlit("8");
        reveal_strlit("9");
        assert(r@ =~= seq![digit_char(d as int)]);
    }
    r
}

/// Formats `n` in decimal.
pub fn decimal_string(n: u64) -> (r: String)
    ensures
        r@ == dec_str(n as nat),
    decreases n,
{
    if n < 10 {
        String::from_str(digit_str(n))
    } else {
        let mut s = decimal_string(n / 10);
        s.append(digit_str(n % 10));
        proof {
            assert(s@ =~= dec_str(n as nat));
        }
        s
    }
}

/// The display name of a group: `name@size`, or `size-<size>` when grouping
/// by size alone.
pub open spec fn spec_group_name(k: GroupKey) -> Seq<char> {
    match k {
        GroupKey::FilenameAndSize(n, s) => n@ + "@"@ + dec_str(s as nat),
        GroupKey::SizeOnly(s) => "size-"@ + dec_str(s as nat),
    }
}

/// Formats a group's key for reporting.
pub fn group_name(k: &GroupKey) -> (r: String)
    ensures
        r@ == spec_group_name(*k),
{
    match k {
        GroupKey::FilenameAndSize(n, s) => {
            let mut r = n.clone();
            r.append("@");
            let d = decimal_string(*s);
            r.append(d.as_str());
            proof {
                assert(r@ =~= spec_group_name(*k));
            }
            r
        },
        GroupKey::SizeOnly(s) => {
            let mut r = String::from_str("size-");
            let d = decimal_string(*s);
            r.append(d.as_str());
            proof {
                assert(r@ =~= spec_group_name(*k));
            }
            r
        },
    }
}

} // verus!
