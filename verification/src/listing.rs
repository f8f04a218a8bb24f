//! Directory listings: directories first, then files, each group ordered by
//! lowercase name; entries of equal rank keep the order they came in.
use vstd::prelude::*;
use crate::casing::{lowercase, str_to_lowercase};
use crate::text::chars_of;

verus! {

/// One entry of a directory: its name, whether it is a directory, and its
/// size in bytes.
#[derive(Debug)]
pub struct FileEntry {
    pub name: String,
    pub is_dir: bool,
    pub size: u64,
}

impl View for FileEntry {
    type V = (Seq<char>, bool, u64);

    open spec fn view(&self) -> (Seq<char>, bool, u64) {
        (self.name@, self.is_dir, self.size)
    }
}

impl Clone for FileEntry {
    fn clone(&self) -> (r: Self)
        ensures
            r@ == self@,
    {
        FileEntry { name: self.name.clone(), is_dir: self.is_dir, size: self.size }
    }
}

/// Lexicographic order of character sequences by code point: the order of
/// `Ord` on `str`, which compares the UTF-8 bytes, and UTF-8 keeps the order
/// of code points.
pub open spec fn chars_less(a: Seq<char>, b: Seq<char>) -> bool
    decreases a.len(),
{
    if a.len() == 0 {
        b.len() > 0
    } else if b.len() == 0 {
        false
    } else if a[0] != b[0] {
        a[0] < b[0]
    } else {
        chars_less(a.drop_first(), b.drop_first())
    }
}

/// What a listing is ordered by: directories before files, then the
/// lowercase name.
pub open spec fn rank(e: (Seq<char>, bool, u64)) -> (bool, Seq<char>) {
    (e.1, lowercase(e.0))
}

/// Whether rank `a` comes strictly before rank `b`.
pub open spec fn rank_before(a: (bool, Seq<char>), b: (bool, Seq<char>)) -> bool {
    (a.0 && !b.0) || (a.0 == b.0 && chars_less(a.1, b.1))
}

/// `r` is `s` sorted by rank with a sort that keeps equal ranks in their
/// order: `perm[k]` is the position in `s` of the `k`-th entry of `r`, and
/// along `r` each entry comes before the next by rank, or has the same rank
/// and came earlier in `s`.
pub open spec fn stable_order(perm: Seq<int>, r: Seq<(Seq<char>, bool, u64)>, s: Seq<(Seq<char>, bool, u64)>) -> bool {
    &&& perm.len() == s.len()
    &&& r.len() == s.len()
    &&& forall|k: int| 0 <= k < r.len() ==> 0 <= #[trigger] perm[k] < s.len() && r[k] == s[perm[k]]
    &&& forall|k: int, l: int|
        0 <= k < l < r.len() ==> rank_before(rank(#[trigger] r[k]), rank(#[trigger] r[l])) || (
        rank(r[k]) == rank(r[l]) && perm[k] < perm[l])
}

/// `r` is the stable sort of `s` by rank.
pub open spec fn is_listing_of(r: Seq<(Seq<char>, bool, u64)>, s: Seq<(Seq<char>, bool, u64)>) -> bool {
    exists|perm: Seq<int>| stable_order(perm, r, s)
}

/// The views of a sequence of entries.
pub open spec fn entry_views(v: Seq<FileEntry>) -> Seq<(Seq<char>, bool, u64)> {
    v.map_values(|e: FileEntry| e@)
}

proof fn lemma_chars_less_irreflexive(a: Seq<char>)
    ensures
        !chars_less(a, a),
    decreases a.len(),
{
    if a.len() > 0 {
        lemma_chars_less_irreflexive(a.drop_first());
    }
}

proof fn lemma_chars_less_total(a: Seq<char>, b: Seq<char>)
    ensures
        a == b || chars_less(a, b) || chars_less(b, a),
        !(chars_less(a, b) && chars_less(b, a)),
    decreases a.len(),
{
    if a.len() > 0 && b.len() > 0 && a[0] == b[0] {
        lemma_chars_less_total(a.drop_first(), b.drop_first());
        if a.drop_first() == b.drop_first() {
            assert(a =~= seq![a[0]] + a.drop_first());
            assert(b =~= seq![b[0]] + b.drop_first());
        }
    } else if a.len() == 0 && b.len() == 0 {
        assert(a =~= b);
    }
}

proof fn lemma_chars_less_transitive(a: Seq<char>, b: Seq<char>, c: Seq<char>)
    requires
        chars_less(a, b),
        chars_less(b, c),
    ensures
        chars_less(a, c),
    decreases a.len(),
{
    if a.len() > 0 && b.len() > 0 && c.len() > 0 && a[0] == b[0] && b[0] == c[0] {
        lemma_chars_less_transitive(a.drop_first(), b.drop_first(), c.drop_first());
    }
}

proof fn lemma_rank_order(a: (bool, Seq<char>), b: (bool, Seq<char>), c: (bool, Seq<char>))
    ensures
        !rank_before(a, a),
        a == b || rank_before(a, b) || rank_before(b, a),
        !(rank_before(a, b) && rank_before(b, a)),
        rank_before(a, b) && rank_before(b, c) ==> rank_before(a, c),
{
    lemma_chars_less_irreflexive(a.1);
    lemma_chars_less_total(a.1, b.1);
    if rank_before(a, b) && rank_before(b, c) && a.0 == b.0 && b.0 == c.0 {
        lemma_chars_less_transitive(a.1, b.1, c.1);
    }
}

/// `chars_less` on two character vectors.
fn chars_less_exec(a: &[char], b: &[char]) -> (r: bool)
    ensures
        r == chars_less(a@, b@),
{
    let mut i: usize = 0;
    assert(a@.skip(0) =~= a@);
    assert(b@.skip(0) =~= b@);
    while i < a.len() && i < b.len() && a[i] == b[i]
        invariant
            i <= a@.len(),
            i <= b@.len(),
            chars_less(a@, b@) == chars_less(a@.skip(i as int), b@.skip(i as int)),
        decreases a@.len() - i,
    {
        proof {
            let x = a@.skip(i as int);
            let y = b@.skip(i as int);
            assert(x[0] == y[0]);
            assert(x.drop_first() =~= a@.skip(i + 1));
            assert(y.drop_first() =~= b@.skip(i + 1));
        }
        i = i + 1;
    }
    proof {
        let x = a@.skip(i as int);
        let y = b@.skip(i as int);
        if i < a.len() && i < b.len() {
            assert(x[0] == a@[i as int]);
            assert(y[0] == b@[i as int]);
        }
    }
    if i == a.len() {
        i < b.len()
    } else if i == b.len() {
        false
    } else {
        a[i] < b[i]
    }
}

/// Whether the entry with rank `(a_dir, a_key)` comes strictly before the
/// one with rank `(b_dir, b_key)`.
fn rank_before_exec(a_dir: bool, a_key: &[char], b_dir: bool, b_key: &[char]) -> (r: bool)
    ensures
        r == rank_before((a_dir, a_key@), (b_dir, b_key@)),
{
    if a_dir && !b_dir {
        true
    } else if a_dir == b_dir {
        chars_less_exec(a_key, b_key)
    } else {
        false
    }
}

/// The entries ordered for display: directories first, then files, each
/// group by lowercase name (`str::to_lowercase`, compared as `str`), entries
/// of equal rank in the order they came in.
pub fn sort_entries(entries: &Vec<FileEntry>) -> (r: Vec<FileEntry>)
    ensures
        is_listing_of(entry_views(r@), entry_views(entries@)),
{
    let n = entries.len();
    let ghost s = entry_views(entries@);
    let mut keys: Vec<Vec<char>> = Vec::new();
    let mut i: usize = 0;
    while i < n
        invariant
            n == entries@.len(),
            s == entry_views(entries@),
            i <= n,
            keys@.len() == i,
            forall|k: int| 0 <= k < i ==> #[trigger] keys@[k]@ == rank(s[k]).1,
        decreases n - i,
    {
        let lower = str_to_lowercase(entries[i].name.as_str());
        keys.push(chars_of(lower.as_str()));
        i = i + 1;
    }
    // `order` holds positions in `entries`; it is kept sorted by rank, stably.
    let mut order: Vec<usize> = Vec::new();
    let mut i: usize = 0;
    while i < n
        invariant
            n == entries@.len(),
            s == entry_views(entries@),
            keys@.len() == n,
            forall|k: int| 0 <= k < n ==> #[trigger] keys@[k]@ == rank(s[k]).1,
            i <= n,
            order@.len() == i,
            forall|k: int| 0 <= k < i ==> #[trigger] order@[k] < i,
            forall|k: int, l: int| 0 <= k < l < i ==> order@[k] != order@[l],
            forall|k: int, l: int|
                0 <= k < l < i ==> rank_before(rank(s[#[trigger] order@[k] as int]), rank(s[#[trigger] order@[l] as int]))
                    || (rank(s[order@[k] as int]) == rank(s[order@[l] as int]) && order@[k] < order@[l]),
        decreases n - i,
    {
        let mut pos: usize = 0;
        while pos < order.len() && !rank_before_exec(
            entries[i].is_dir,
            keys[i].as_slice(),
            entries[order[pos]].is_dir,
            keys[order[pos]].as_slice(),
        )
            invariant
                n == entries@.len(),
                s == entry_views(entries@),
                keys@.len() == n,
                forall|k: int| 0 <= k < n ==> #[trigger] keys@[k]@ == rank(s[k]).1,
                i < n,
                order@.len() == i,
                forall|k: int| 0 <= k < i ==> #[trigger] order@[k] < i,
                pos <= i,
                forall|k: int| 0 <= k < pos ==> !rank_before(rank(s[i as int]), rank(s[#[trigger] order@[k] as int])),
            decreases i - pos,
        {
            pos = pos + 1;
        }
        proof {
            let ri = rank(s[i as int]);
            assert forall|k: int| pos <= k < i implies rank_before(ri, rank(s[#[trigger] order@[k] as int])) by {
                if k > pos {
                    let a = rank(s[order@[pos as int] as int]);
                    let b = rank(s[order@[k] as int]);
                    lemma_rank_order(ri, a, b);
                    lemma_rank_order(a, b, ri);
                }
            }
            assert forall|k: int| 0 <= k < pos implies rank_before(rank(s[#[trigger] order@[k] as int]), ri) || rank(s[order@[k] as int]) == ri by {
                lemma_rank_order(ri, rank(s[order@[k] as int]), ri);
            }
        }
        let ghost before = order@;
        order.insert(pos, i);
        proof {
            assert(order@ == before.insert(pos as int, i));
            assert forall|k: int| 0 <= k < i + 1 implies #[trigger] order@[k] < i + 1 by {
                if k < pos {
                    assert(order@[k] == before[k]);
                } else if k > pos {
                    assert(order@[k] == before[k - 1]);
                }
            }
            assert forall|k: int, l: int| 0 <= k < l < i + 1 implies order@[k] != order@[l] by {
                if k < pos {
                    assert(order@[k] == before[k]);
                } else if k > pos {
                    assert(order@[k] == before[k - 1]);
                }
                if l < pos {
                    assert(order@[l] == before[l]);
                } else if l > pos {
                    assert(order@[l] == before[l - 1]);
                }
            }
            assert forall|k: int, l: int|
                0 <= k < l < i + 1 implies rank_before(rank(s[#[trigger] order@[k] as int]), rank(s[#[trigger] order@[l] as int]))
                    || (rank(s[order@[k] as int]) == rank(s[order@[l] as int]) && order@[k] < order@[l]) by {
                if k < pos {
                    assert(order@[k] == before[k]);
                } else if k > pos {
                    assert(order@[k] == before[k - 1]);
                }
                if l < pos {
                    assert(order@[l] == before[l]);
                } else if l > pos {
                    assert(order@[l] == before[l - 1]);
                }
            }
        }
        i = i + 1;
    }
    let mut r: Vec<FileEntry> = Vec::new();
    let mut k: usize = 0;
    while k < n
        invariant
            n == entries@.len(),
            s == entry_views(entries@),
            order@.len() == n,
            forall|j: int| 0 <= j < n ==> #[trigger] order@[j] < n,
            k <= n,
            r@.len() == k,
            forall|j: int| 0 <= j < k ==> #[trigger] r@[j]@ == s[order@[j] as int],
        decreases n - k,
    {
        let e = entries[order[k]].clone();
        r.push(e);
        k = k + 1;
    }
    proof {
        let perm = order@.map_values(|p: usize| p as int);
        let rv = entry_views(r@);
        assert forall|j: int| 0 <= j < rv.len() implies 0 <= #[trigger] perm[j] < s.len() && rv[j] == s[perm[j]] by {
            assert(r@[j]@ == s[order@[j] as int]);
        }
        assert forall|j: int, l: int|
            0 <= j < l < rv.len() implies rank_before(rank(#[trigger] rv[j]), rank(#[trigger] rv[l])) || (
            rank(rv[j]) == rank(rv[l]) && perm[j] < perm[l]) by {
            assert(rv[j] == s[order@[j] as int]);
            assert(rv[l] == s[order@[l] as int]);
        }
        assert(stable_order(perm, rv, s));
    }
    r
}


/// In a listing every directory comes before every file.
pub proof fn lemma_directories_first(r: Seq<(Seq<char>, bool, u64)>, s: Seq<(Seq<char>, bool, u64)>)
    requires
        is_listing_of(r, s),
    ensures
        forall|k: int, l: int| 0 <= k < l < r.len() && (#[trigger] r[l]).1 ==> (#[trigger] r[k]).1,
{
    let perm = choose|perm: Seq<int>| stable_order(perm, r, s);
    assert forall|k: int, l: int| 0 <= k < l < r.len() && (#[trigger] r[l]).1 implies (#[trigger] r[k]).1 by {
        assert(rank_before(rank(r[k]), rank(r[l])) || (rank(r[k]) == rank(r[l]) && perm[k] < perm[l]));
    }
}


/// Why a directory cannot be listed.
#[derive(Debug)]
pub enum ListingError {
    /// The path does not exist.
    NotFound,
    /// The path exists but is not a directory.
    NotADirectory,
    /// Reading the directory failed with this error text.
    ReadFailed(String),
}

/// The message of a listing error.
pub open spec fn listing_error_text(e: ListingError) -> Seq<char> {
    match e {
        ListingError::NotFound => "Dossier introuvable"@,
        ListingError::NotADirectory => "Le chemin n'est pas un dossier"@,
        ListingError::ReadFailed(m) => "Erreur lecture: "@ + m@,
    }
}

impl ListingError {
    /// The message shown for the error.
    pub fn message(&self) -> (r: String)
        ensures
            r@ == listing_error_text(*self),
    {
        match self {
            ListingError::NotFound => String::from_str("Dossier introuvable"),
            ListingError::NotADirectory => String::from_str("Le chemin n'est pas un dossier"),
            ListingError::ReadFailed(m) => {
                let mut r = String::from_str("Erreur lecture: ");
                r.append(m.as_str());
                r
            },
        }
    }
}

/// Whether a path can be listed: it must exist, and be a directory.
pub fn check_directory(exists: bool, is_dir: bool) -> (r: Result<(), ListingError>)
    ensures
        !exists ==> r matches Err(ListingError::NotFound),
        exists && !is_dir ==> r matches Err(ListingError::NotADirectory),
        exists && is_dir ==> r is Ok,
{
    if !exists {
        Err(ListingError::NotFound)
    } else if !is_dir {
        Err(ListingError::NotADirectory)
    } else {
        Ok(())
    }
}


/// A listing holds every entry of the directory: it is a rearrangement of
/// the entries, none lost and none repeated.
pub proof fn lemma_listing_keeps_every_entry(r: Seq<(Seq<char>, bool, u64)>, s: Seq<(Seq<char>, bool, u64)>)
    requires
        is_listing_of(r, s),
    ensures
        r.len() == s.len(),
        forall|j: int| 0 <= j < s.len() ==> r.contains(#[trigger] s[j]),
{
    let perm = choose|perm: Seq<int>| stable_order(perm, r, s);
    assert(perm.no_duplicates()) by {
        assert forall|k: int, l: int| 0 <= k < perm.len() && 0 <= l < perm.len() && k != l implies perm[k] != perm[l] by {
            let (a, b) = if k < l { (k, l) } else { (l, k) };
            assert(rank_before(rank(r[a]), rank(r[b])) || (rank(r[a]) == rank(r[b]) && perm[a] < perm[b]));
            if perm[a] == perm[b] {
                assert(r[a] == r[b]);
                lemma_rank_order(rank(r[a]), rank(r[a]), rank(r[a]));
            }
        }
    }
    perm.unique_seq_to_set();
    let range = vstd::set_lib::set_int_range(0, s.len() as int);
    vstd::set_lib::lemma_int_range(0, s.len() as int);
    assert(perm.to_set().subset_of(range)) by {
        assert forall|x: int| perm.to_set().contains(x) implies range.contains(x) by {
            let k = choose|k: int| 0 <= k < perm.len() && perm[k] == x;
            assert(0 <= perm[k] < s.len());
        }
    }
    vstd::set_lib::lemma_len_subset(perm.to_set(), range);
    vstd::set_lib::lemma_subset_equality(perm.to_set(), range);
    assert forall|j: int| 0 <= j < s.len() implies r.contains(#[trigger] s[j]) by {
        assert(range.contains(j));
        assert(perm.to_set().contains(j));
        let k = choose|k: int| 0 <= k < perm.len() && perm[k] == j;
        assert(r[k] == s[perm[k]]);
    }
}

} // verus!
