//! The file store.
//!
//! All of a daemon's files live under its working directory as flat,
//! node-local names.  The store models that directory: a mapping from URI
//! to file contents and modification time.  Local reads, overwriting
//! writes, exclusive creates, removals and fresh-name allocation all work
//! on it; the daemon around it decides when each is allowed.

use vstd::prelude::*;
use vstd::string::{StrSliceExecFns, StringExecFns};

use crate::codec::{str_eq, string_eq, take_range};

verus! {

/// One file: its bytes and the time (seconds) of its last write.
pub struct FileData {
    pub bytes: Vec<u8>,
    pub mtime: u64,
}

/// Mathematical view of one file.
pub ghost struct FileV {
    pub bytes: Seq<u8>,
    pub mtime: u64,
}

impl View for FileData {
    type V = FileV;

    open spec fn view(&self) -> FileV {
        FileV { bytes: self.bytes@, mtime: self.mtime }
    }
}

/// The mapping that a sequence of named files denotes; a later duplicate
/// name would win, and the store's invariant rules duplicates out.
pub open spec fn files_map(s: Seq<(String, FileData)>) -> Map<Seq<char>, FileV>
    decreases s.len(),
{
    if s.len() == 0 {
        Map::empty()
    } else {
        files_map(s.drop_last()).insert(s.last().0@, s.last().1@)
    }
}

/// Names are pairwise distinct.
pub open spec fn names_unique(s: Seq<(String, FileData)>) -> bool {
    forall|i: int, j: int| 0 <= i < j < s.len() ==> s[i].0@ != s[j].0@
}

/// A name is in the denoted map exactly when some element carries it.
pub proof fn lemma_files_map_contains(s: Seq<(String, FileData)>, k: Seq<char>)
    ensures
        files_map(s).contains_key(k) == exists|i: int| 0 <= i < s.len() && s[i].0@ == k,
    decreases s.len(),
{
    if s.len() > 0 {
        lemma_files_map_contains(s.drop_last(), k);
        if s.last().0@ != k {
            assert(forall|i: int|
                0 <= i < s.len() - 1 ==> s.drop_last()[i] == s[i]);
            if exists|i: int| 0 <= i < s.len() && s[i].0@ == k {
                let i = choose|i: int| 0 <= i < s.len() && s[i].0@ == k;
                assert(i < s.len() - 1);
                assert(s.drop_last()[i].0@ == k);
            }
        }
    }
}

/// With distinct names, each element is what the map holds for its name.
pub proof fn lemma_files_map_index(s: Seq<(String, FileData)>, i: int)
    requires
        names_unique(s),
        0 <= i < s.len(),
    ensures
        files_map(s).contains_key(s[i].0@),
        files_map(s)[s[i].0@] == s[i].1@,
    decreases s.len(),
{
    lemma_files_map_contains(s, s[i].0@);
    if i < s.len() - 1 {
        assert(s.last().0@ != s[i].0@);
        assert(s.drop_last()[i] == s[i]);
        lemma_files_map_index(s.drop_last(), i);
    }
}

/// Removing the element that carries a name removes the name.
pub proof fn lemma_files_map_remove(s: Seq<(String, FileData)>, i: int)
    requires
        names_unique(s),
        0 <= i < s.len(),
    ensures
        names_unique(s.remove(i)),
        files_map(s.remove(i)) == files_map(s).remove(s[i].0@),
    decreases s.len(),
{
    let k = s[i].0@;
    if i == s.len() - 1 {
        assert(s.remove(i) =~= s.drop_last());
        lemma_files_map_contains(s.drop_last(), k);
        assert(!files_map(s.drop_last()).contains_key(k));
        assert(files_map(s.drop_last()) =~= files_map(s).remove(k));
    } else {
        assert(s.remove(i).drop_last() =~= s.drop_last().remove(i));
        assert(s.remove(i).last() == s.last());
        lemma_files_map_remove(s.drop_last(), i);
        assert(files_map(s.remove(i)) =~= files_map(s).remove(k));
    }
}

/// The store: a daemon's working directory, URI to file.
pub struct FileStore {
    files: Vec<(String, FileData)>,
}

impl View for FileStore {
    type V = Map<Seq<char>, FileV>;

    closed spec fn view(&self) -> Map<Seq<char>, FileV> {
        files_map(self.files@)
    }
}

impl FileStore {
    /// Names are pairwise distinct.
    pub closed spec fn wf(&self) -> bool {
        names_unique(self.files@)
    }

    /// An empty working directory.
    pub fn new() -> (r: FileStore)
        ensures
            r.wf(),
            r@ == Map::<Seq<char>, FileV>::empty(),
    {
        FileStore { files: Vec::new() }
    }

    /// The position of the file with this name, if any.
    fn find_idx(&self, uri: &str) -> (r: Option<usize>)
        ensures
            match r {
                Some(i) => i < self.files@.len() && self.files@[i as int].0@ == uri@,
                None => forall|i: int| 0 <= i < self.files@.len() ==> self.files@[i].0@ != uri@,
            },
    {
        let n = self.files.len();
        let mut i: usize = 0;
        while i < n
            invariant
                n == self.files@.len(),
                i <= n,
                forall|j: int| 0 <= j < i ==> self.files@[j].0@ != uri@,
            decreases n - i,
        {
            if str_eq(self.files[i].0.as_str(), uri) {
                return Some(i);
            }
            i = i + 1;
        }
        None
    }

    /// Whether a file with this URI exists.
    pub fn exists_file(&self, uri: &str) -> (r: bool)
        ensures
            r == self@.contains_key(uri@),
    {
        proof {
            lemma_files_map_contains(self.files@, uri@);
        }
        self.find_idx(uri).is_some()
    }

    /// Read the whole contents of the file, or `None` when it is absent.
    pub fn read(&self, uri: &str) -> (r: Option<Vec<u8>>)
        requires
            self.wf(),
        ensures
            match r {
                Some(b) => self@.contains_key(uri@) && b@ == self@[uri@].bytes,
                None => !self@.contains_key(uri@),
            },
    {
        proof {
            lemma_files_map_contains(self.files@, uri@);
        }
        match self.find_idx(uri) {
            None => None,
            Some(i) => {
                proof {
                    lemma_files_map_index(self.files@, i as int);
                }
                let b = &self.files[i].1.bytes;
                Some(take_range(b, 0, b.len()))
            },
        }
    }

    /// The modification time of the file, or `None` when it is absent.
    pub fn mtime_of(&self, uri: &str) -> (r: Option<u64>)
        requires
            self.wf(),
        ensures
            match r {
                Some(t) => self@.contains_key(uri@) && t == self@[uri@].mtime,
                None => !self@.contains_key(uri@),
            },
    {
        proof {
            lemma_files_map_contains(self.files@, uri@);
        }
        match self.find_idx(uri) {
            None => None,
            Some(i) => {
                proof {
                    lemma_files_map_index(self.files@, i as int);
                }
                Some(self.files[i].1.mtime)
            },
        }
    }

    /// The on-disk size of the file, or `None` when it is absent.
    pub fn size_of(&self, uri: &str) -> (r: Option<usize>)
        requires
            self.wf(),
        ensures
            match r {
                Some(n) => self@.contains_key(uri@) && n == self@[uri@].bytes.len(),
                None => !self@.contains_key(uri@),
            },
    {
        proof {
            lemma_files_map_contains(self.files@, uri@);
        }
        match self.find_idx(uri) {
            None => None,
            Some(i) => {
                proof {
                    lemma_files_map_index(self.files@, i as int);
                }
                Some(self.files[i].1.bytes.len())
            },
        }
    }

    /// Put the file under its name, inserting or overwriting.
    fn put(&mut self, uri: &str, data: Vec<u8>, now: u64)
        requires
            old(self).wf(),
        ensures
            final(self).wf(),
            final(self)@ == old(self)@.insert(uri@, FileV { bytes: data@, mtime: now }),
    {
        let ghost s0 = self.files@;
        let idx = self.find_idx(uri);
        match idx {
            Some(i) => {
                proof {
                    lemma_files_map_remove(s0, i as int);
                }
                self.files.remove(i);
                assert(names_unique(self.files@));
            },
            None => {
                proof {
                    lemma_files_map_contains(s0, uri@);
                }
            },
        }
        let ghost s1 = self.files@;
        let key = uri.to_owned();
        self.files.push((key, FileData { bytes: data, mtime: now }));
        proof {
            assert(self.files@.drop_last() =~= s1);
            assert(forall|i: int| 0 <= i < s1.len() ==> s1[i].0@ != uri@);
            assert(names_unique(self.files@));
            if idx is Some {
                assert(files_map(self.files@) =~= old(self)@.insert(
                    uri@,
                    FileV { bytes: data@, mtime: now },
                ));
            } else {
                assert(files_map(self.files@) =~= old(self)@.insert(
                    uri@,
                    FileV { bytes: data@, mtime: now },
                ));
            }
        }
    }

    /// Overwrite a pre-existing file; a write to an absent URI fails and
    /// changes nothing (placement must precede writing).
    pub fn write(&mut self, uri: &str, data: Vec<u8>, now: u64) -> (r: bool)
        requires
            old(self).wf(),
        ensures
            final(self).wf(),
            r == old(self)@.contains_key(uri@),
            r ==> final(self)@ == old(self)@.insert(uri@, FileV { bytes: data@, mtime: now }),
            !r ==> final(self)@ == old(self)@,
    {
        if self.exists_file(uri) {
            self.put(uri, data, now);
            true
        } else {
            false
        }
    }

    /// Create an empty file, exclusively: fails and changes nothing when
    /// the name is taken.
    pub fn create(&mut self, uri: &str, now: u64) -> (r: bool)
        requires
            old(self).wf(),
        ensures
            final(self).wf(),
            r == !old(self)@.contains_key(uri@),
            r ==> final(self)@ == old(self)@.insert(
                uri@,
                FileV { bytes: Seq::empty(), mtime: now },
            ),
            !r ==> final(self)@ == old(self)@,
    {
        if self.exists_file(uri) {
            false
        } else {
            self.put(uri, Vec::new(), now);
            true
        }
    }

    /// The names of all files, for walking the store.
    pub fn names(&self) -> (r: Vec<String>)
        requires
            self.wf(),
        ensures
            forall|m: int| 0 <= m < r@.len() ==> self@.contains_key(#[trigger] r@[m]@),
            forall|k: Seq<char>|
                self@.contains_key(k) ==> exists|m: int| 0 <= m < r@.len() && #[trigger] r@[m]@
                    == k,
    {
        proof {
            assert forall|k: Seq<char>| self@.contains_key(k) implies exists|x: int|
                0 <= x < self.files@.len() && #[trigger] self.files@[x].0@ == k by {
                lemma_files_map_contains(self.files@, k);
            }
        }
        let n = self.files.len();
        let mut r: Vec<String> = Vec::new();
        let mut i: usize = 0;
        while i < n
            invariant
                self.wf(),
                n == self.files@.len(),
                i <= n,
                r@.len() == i,
                forall|m: int| 0 <= m < i ==> #[trigger] r@[m]@ == self.files@[m].0@,
            decreases n - i,
        {
            proof {
                lemma_files_map_index(self.files@, i as int);
            }
            r.push(self.files[i].0.clone());
            i = i + 1;
        }
        proof {
            assert forall|m: int| 0 <= m < r@.len() implies self@.contains_key(
                #[trigger] r@[m]@,
            ) by {
                lemma_files_map_index(self.files@, m);
            }
            assert forall|k: Seq<char>| self@.contains_key(k) implies exists|m: int|
                0 <= m < r@.len() && #[trigger] r@[m]@ == k by {
                let x = choose|x: int|
                    0 <= x < self.files@.len() && #[trigger] self.files@[x].0@ == k;
                assert(r@[x]@ == k);
            }
        }
        r
    }

    /// Remove the file; fails and changes nothing when it is absent.
    pub fn remove(&mut self, uri: &str) -> (r: bool)
        requires
            old(self).wf(),
        ensures
            final(self).wf(),
            r == old(self)@.contains_key(uri@),
            final(self)@ == old(self)@.remove(uri@),
    {
        proof {
            lemma_files_map_contains(self.files@, uri@);
        }
        match self.find_idx(uri) {
            None => {
                assert(old(self)@.remove(uri@) =~= old(self)@);
                false
            },
            Some(i) => {
                proof {
                    lemma_files_map_remove(self.files@, i as int);
                }
                self.files.remove(i);
                true
            },
        }
    }
}

/// The character for one hex digit.
pub open spec fn hex_char(d: nat) -> char {
    if d == 0 { '0' } else if d == 1 { '1' } else if d == 2 { '2' } else if d == 3 { '3' }
    else if d == 4 { '4' } else if d == 5 { '5' } else if d == 6 { '6' } else if d == 7 { '7' }
    else if d == 8 { '8' } else if d == 9 { '9' } else if d == 10 { 'a' } else if d == 11 { 'b' }
    else if d == 12 { 'c' } else if d == 13 { 'd' } else if d == 14 { 'e' } else { 'f' }
}

/// Lowercase hex digits of `n`, most significant first, no leading zeros.
pub open spec fn spec_hex(n: nat) -> Seq<char>
    decreases n,
{
    if n < 16 {
        seq![hex_char(n)]
    } else {
        spec_hex(n / 16) + seq![hex_char(n % 16)]
    }
}

/// A character that a fresh file name may hold.
pub open spec fn is_hex_char(c: char) -> bool {
    c == '0' || c == '1' || c == '2' || c == '3' || c == '4' || c == '5' || c == '6' || c == '7'
        || c == '8' || c == '9' || c == 'a' || c == 'b' || c == 'c' || c == 'd' || c == 'e'
        || c == 'f'
}

/// Every character of the sequence could name a fresh file.
pub open spec fn uri_hexy(s: Seq<char>) -> bool {
    forall|i: int| 0 <= i < s.len() ==> is_hex_char(#[trigger] s[i])
}

/// A hex rendering holds hex characters only.
pub proof fn lemma_spec_hex_hexy(n: nat)
    ensures
        uri_hexy(spec_hex(n)),
    decreases n,
{
    if n < 16 {
        assert(is_hex_char(hex_char(n)));
        assert(forall|i: int| 0 <= i < spec_hex(n).len() ==> spec_hex(n)[i] == hex_char(n));
    } else {
        lemma_spec_hex_hexy(n / 16);
        assert(is_hex_char(hex_char(n % 16)));
        assert(forall|i: int|
            0 <= i < spec_hex(n).len() ==> spec_hex(n)[i] == (if i < spec_hex(n / 16).len() {
                spec_hex(n / 16)[i]
            } else {
                hex_char(n % 16)
            }));
    }
}

/// A hex rendering is never empty.
pub proof fn lemma_spec_hex_nonempty(n: nat)
    ensures
        spec_hex(n).len() >= 1,
    decreases n,
{
    if n >= 16 {
        lemma_spec_hex_nonempty(n / 16);
    }
}

/// Sixteen to the `k`.
pub open spec fn pow16(k: nat) -> nat
    decreases k,
{
    if k == 0 {
        1
    } else {
        16 * pow16((k - 1) as nat)
    }
}

/// A value below `16^k` renders as at most `k` hex digits.
pub proof fn lemma_spec_hex_len(n: nat, k: nat)
    requires
        k >= 1,
        n < pow16(k),
    ensures
        spec_hex(n).len() <= k,
    decreases k,
{
    if n < 16 {
    } else {
        reveal_with_fuel(pow16, 3);
        assert(pow16(k) == 16 * pow16((k - 1) as nat));
        assert(n / 16 < pow16((k - 1) as nat)) by {
            assert(n <= 16 * pow16((k - 1) as nat) - 1);
            assert((16 * pow16((k - 1) as nat) - 1) / 16 == pow16((k - 1) as nat) - 1)
                by (nonlinear_arith);
            assert(n / 16 <= (16 * pow16((k - 1) as nat) - 1) / 16) by (nonlinear_arith)
                requires
                    n <= 16 * pow16((k - 1) as nat) - 1,
            ;
        }
        assert(k != 1);
        lemma_spec_hex_len(n / 16, (k - 1) as nat);
    }
}

/// A 64-bit value renders as at most sixteen hex digits.
pub proof fn lemma_spec_hex_len_u64(n: u64)
    ensures
        spec_hex(n as nat).len() <= 16,
{
    assert(pow16(16) == 0x1_0000_0000_0000_0000) by {
        reveal_with_fuel(pow16, 18);
    }
    lemma_spec_hex_len(n as nat, 16);
}

/// One hex digit as a string slice.
fn hex_digit(d: u64) -> (r: &'static str)
    requires
        d < 16,
    ensures
        r@ == seq![hex_char(d as nat)],
{
    let r: &'static str = if d == 0 { "0" } else if d == 1 { "1" } else if d == 2 { "2" }
    else if d == 3 { "3" } else if d == 4 { "4" } else if d == 5 { "5" } else if d == 6 { "6" }
    else if d == 7 { "7" } else if d == 8 { "8" } else if d == 9 { "9" } else if d == 10 { "a" }
    else if d == 11 { "b" } else if d == 12 { "c" } else if d == 13 { "d" } else if d == 14 { "e" }
    else { "f" };
    proof {
        reveal_strlit("0");
        reveal_strlit("1");
        reveal_strlit("2");
        reveal_strlit("3");
        reveal_strlit("4");
        reveal_strlit("5");
        reveal_strlit("6");
        reveal_strlit("7");
        reveal_strlit("8");
        reveal_strlit("9");
        reveal_strlit("a");
        reveal_strlit("b");
        reveal_strlit("c");
        reveal_strlit("d");
        reveal_strlit("e");
        reveal_strlit("f");
        assert(r@ =~= seq![hex_char(d as nat)]);
    }
    r
}

/// Format `n` as lowercase hex, as random URIs are named.
pub fn u64_to_hex(n: u64) -> (r: String)
    ensures
        r@ == spec_hex(n as nat),
    decreases n,
{
    if n < 16 {
        hex_digit(n).to_owned()
    } else {
        let mut s = u64_to_hex(n / 16);
        s.append(hex_digit(n % 16));
        assert(s@ =~= spec_hex(n as nat));
        s
    }
}

/// A name of `len` repetitions of one character, longer than any name it
/// is asked to dodge.
fn long_name(len: usize) -> (r: String)
    ensures
        r@.len() == len,
        uri_hexy(r@),
{
    let mut s = String::new();
    let mut i: usize = 0;
    while i < len
        invariant
            i <= len,
            s@.len() == i,
            forall|j: int| 0 <= j < i ==> #[trigger] s@[j] == 'f',
        decreases len - i,
    {
        proof {
            reveal_strlit("f");
        }
        s.append("f");
        i = i + 1;
    }
    s
}

impl FileStore {
    /// An upper bound on the lengths of all names in the store, or `None`
    /// in the degenerate case of a name too long to exceed.
    fn name_len_bound(&self) -> (r: Option<usize>)
        requires
            self.wf(),
        ensures
            match r {
                Some(m) => m < usize::MAX && forall|k: Seq<char>|
                    self@.contains_key(k) ==> k.len() <= m,
                None => exists|k: Seq<char>| self@.contains_key(k) && k.len() >= usize::MAX,
            },
    {
        proof {
            assert(forall|k: Seq<char>| self@.contains_key(k) ==> exists|i: int|
                0 <= i < self.files@.len() && #[trigger] self.files@[i].0@ == k) by {
                assert forall|k: Seq<char>| self@.contains_key(k) implies exists|i: int|
                    0 <= i < self.files@.len() && #[trigger] self.files@[i].0@ == k by {
                    lemma_files_map_contains(self.files@, k);
                }
            }
        }
        let n = self.files.len();
        let mut m: usize = 0;
        let mut i: usize = 0;
        while i < n
            invariant
                self.wf(),
                n == self.files@.len(),
                i <= n,
                m < usize::MAX,
                forall|j: int| 0 <= j < i ==> self.files@[j].0@.len() <= m,
            decreases n - i,
        {
            let l = self.files[i].0.as_str().unicode_len();
            if l == usize::MAX {
                proof {
                    lemma_files_map_index(self.files@, i as int);
                    assert(self@.contains_key(self.files@[i as int].0@));
                    assert(self.files@[i as int].0@.len() >= usize::MAX);
                }
                return None;
            }
            if l > m {
                m = l;
            }
            i = i + 1;
        }
        Some(m)
    }

    /// Allocate a fresh file: retry over the random value's hex name and
    /// its successors; if every probe is taken, fall back to a name
    /// longer than every present one (an unbounded random retry has no
    /// provable end).  Returns the name, with an empty file created under
    /// it; `None` only in the degenerate case of a present name too long
    /// to exceed.
    pub fn alloc_uri(&mut self, rand: u64, now: u64) -> (r: Option<String>)
        requires
            old(self).wf(),
        ensures
            final(self).wf(),
            r matches Some(u) ==> u@.len() > 0 && uri_hexy(u@) && !old(self)@.contains_key(u@)
                && final(self)@ == old(self)@.insert(
                u@,
                FileV { bytes: Seq::empty(), mtime: now },
            ),
            // the name is a hex rendering of a 64-bit value, or — when
            // every probe was taken — the fallback, longer than every
            // name already present
            r matches Some(u) ==> u@.len() <= 16 || (forall|k: Seq<char>|
                old(self)@.contains_key(k) ==> k.len() < u@.len()),
            r is None ==> final(self)@ == old(self)@ && exists|k: Seq<char>|
                old(self)@.contains_key(k) && k.len() >= usize::MAX,
    {
        let mut t: u64 = 0;
        while t < 16
            invariant
                self.wf(),
                self@ == old(self)@,
            decreases 16u64 - t,
        {
            let probe = rand.wrapping_add(t);
            let name = u64_to_hex(probe);
            proof {
                lemma_spec_hex_nonempty(probe as nat);
                lemma_spec_hex_hexy(probe as nat);
                lemma_spec_hex_len_u64(probe);
            }
            if self.create(name.as_str(), now) {
                return Some(name);
            }
            t = t + 1;
        }
        match self.name_len_bound() {
            None => None,
            Some(m) => {
                let name = long_name(m + 1);
                let created = self.create(name.as_str(), now);
                assert(!old(self)@.contains_key(name@));
                Some(name)
            },
        }
    }
}

} // verus!
