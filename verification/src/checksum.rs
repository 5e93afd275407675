//! Content fingerprints: SHA-256 of a file's bytes, and the reproducible
//! tree fingerprint of a directory, fed by relative path then contents
//! for every contained file in lexicographic byte order of the relative
//! paths.

use vstd::prelude::*;
use vstd::string::StrSliceExecFns;
use crate::strutil;

verus! {

// ---------------------------------------------------------------------------
// The digest itself, behind a name
// ---------------------------------------------------------------------------

/// The SHA-256 digest of a byte sequence: a function of the bytes alone.
pub uninterp spec fn sha256_of(data: Seq<u8>) -> Seq<u8>;

/// Relies on sha2's `Sha256` through `Digest::digest`: the one-shot
/// 32-byte SHA-256 digest of the input, a function of the bytes alone.
#[verifier::external_body]
fn sha256_digest(data: &Vec<u8>) -> (r: Vec<u8>)
    ensures
        r@ == sha256_of(data@),
        r@.len() == 32,
{
    let out = <sha2::Sha256 as sha2::Digest>::digest(data.as_slice());
    out.to_vec()
}

// ---------------------------------------------------------------------------
// Hex encoding
// ---------------------------------------------------------------------------

/// The lower-case hex digit of a value below sixteen.
pub open spec fn hex_digit(n: int) -> char {
    if n == 0 { '0' } else if n == 1 { '1' } else if n == 2 { '2' } else if n == 3 { '3' }
    else if n == 4 { '4' } else if n == 5 { '5' } else if n == 6 { '6' } else if n == 7 { '7' }
    else if n == 8 { '8' } else if n == 9 { '9' } else if n == 10 { 'a' } else if n == 11 { 'b' }
    else if n == 12 { 'c' } else if n == 13 { 'd' } else if n == 14 { 'e' } else { 'f' }
}

/// Two lower-case hex digits for each byte, in order.
pub open spec fn hex_of(bytes: Seq<u8>) -> Seq<char>
    decreases bytes.len(),
{
    if bytes.len() == 0 {
        Seq::empty()
    } else {
        hex_of(bytes.drop_last()) + seq![
            hex_digit(bytes.last() as int / 16),
            hex_digit(bytes.last() as int % 16),
        ]
    }
}

fn hex_digit_exec(n: u8) -> (r: char)
    requires
        n < 16,
    ensures
        r == hex_digit(n as int),
{
    if n == 0 { '0' } else if n == 1 { '1' } else if n == 2 { '2' } else if n == 3 { '3' }
    else if n == 4 { '4' } else if n == 5 { '5' } else if n == 6 { '6' } else if n == 7 { '7' }
    else if n == 8 { '8' } else if n == 9 { '9' } else if n == 10 { 'a' } else if n == 11 { 'b' }
    else if n == 12 { 'c' } else if n == 13 { 'd' } else if n == 14 { 'e' } else { 'f' }
}

/// The lower-case hex string of a byte vector.
pub fn to_hex(bytes: &Vec<u8>) -> (r: String)
    ensures
        r@ == hex_of(bytes@),
{
    let mut out: Vec<char> = Vec::new();
    let mut i: usize = 0;
    while i < bytes.len()
        invariant
            i <= bytes.len(),
            out@ =~= hex_of(bytes@.take(i as int)),
        decreases bytes.len() - i,
    {
        let b = bytes[i];
        out.push(hex_digit_exec(b / 16));
        out.push(hex_digit_exec(b % 16));
        proof {
            assert(bytes@.take(i + 1).drop_last() =~= bytes@.take(i as int));
            assert(bytes@.take(i + 1).last() == bytes@[i as int]);
            assert(out@ =~= hex_of(bytes@.take(i + 1)));
        }
        i = i + 1;
    }
    proof {
        assert(bytes@.take(bytes@.len() as int) =~= bytes@);
    }
    strutil::from_chars(&out)
}

/// The hex-encoded SHA-256 fingerprint of a byte sequence.
pub open spec fn checksum_of(data: Seq<u8>) -> Seq<char> {
    hex_of(sha256_of(data))
}

/// The fingerprint of a single file's contents.
pub fn file_checksum(data: &Vec<u8>) -> (r: String)
    ensures
        r@ == checksum_of(data@),
{
    let digest = sha256_digest(data);
    to_hex(&digest)
}

// ---------------------------------------------------------------------------
// Directory trees
// ---------------------------------------------------------------------------

/// One file inside a directory tree: its path relative to the tree root
/// and its contents.
#[derive(Clone, Debug)]
pub struct TreeFile {
    pub rel_path: String,
    pub data: Vec<u8>,
}

/// Model of one tree entry: the UTF-8 bytes of the relative path and the
/// contents.
#[verifier::ext_equal]
pub ghost struct EntryModel {
    pub path: Seq<u8>,
    pub data: Seq<u8>,
}

impl View for TreeFile {
    type V = EntryModel;

    open spec fn view(&self) -> EntryModel {
        EntryModel { path: vstd::utf8::encode_utf8(self.rel_path@), data: self.data@ }
    }
}

pub open spec fn entry_models(v: Seq<TreeFile>) -> Seq<EntryModel> {
    Seq::new(v.len(), |i: int| v[i]@)
}

/// Strict lexicographic order on byte sequences.
pub open spec fn bytes_lt(a: Seq<u8>, b: Seq<u8>) -> bool
    decreases a.len(),
{
    if b.len() == 0 {
        false
    } else if a.len() == 0 {
        true
    } else if a[0] < b[0] {
        true
    } else if a[0] > b[0] {
        false
    } else {
        bytes_lt(a.skip(1), b.skip(1))
    }
}

fn bytes_lt_at(a: &Vec<u8>, b: &Vec<u8>, i: usize) -> (r: bool)
    requires
        i <= a.len(),
        i <= b.len(),
    ensures
        r == bytes_lt(a@.skip(i as int), b@.skip(i as int)),
    decreases a.len() - i,
{
    proof {
        if i < a.len() {
            assert(a@.skip(i as int)[0] == a@[i as int]);
            assert(a@.skip(i as int).skip(1) =~= a@.skip(i + 1));
        }
        if i < b.len() {
            assert(b@.skip(i as int)[0] == b@[i as int]);
            assert(b@.skip(i as int).skip(1) =~= b@.skip(i + 1));
        }
    }
    if i == b.len() {
        proof {
            assert(b@.skip(i as int) =~= Seq::<u8>::empty());
        }
        false
    } else if i == a.len() {
        proof {
            assert(a@.skip(i as int) =~= Seq::<u8>::empty());
        }
        true
    } else if a[i] < b[i] {
        true
    } else if a[i] > b[i] {
        false
    } else {
        bytes_lt_at(a, b, i + 1)
    }
}

/// Strict lexicographic comparison of two byte vectors.
pub fn bytes_less(a: &Vec<u8>, b: &Vec<u8>) -> (r: bool)
    ensures
        r == bytes_lt(a@, b@),
{
    let r = bytes_lt_at(a, b, 0);
    proof {
        assert(a@.skip(0) =~= a@);
        assert(b@.skip(0) =~= b@);
    }
    r
}

/// Stable insertion of an entry into a path-sorted list: it lands after
/// every entry whose path is not greater.
pub open spec fn insert_entry(s: Seq<EntryModel>, e: EntryModel) -> Seq<EntryModel>
    decreases s.len(),
{
    if s.len() == 0 {
        seq![e]
    } else if bytes_lt(e.path, s[0].path) {
        seq![e] + s
    } else {
        seq![s[0]] + insert_entry(s.skip(1), e)
    }
}

/// Stable insertion sort of tree entries by relative path bytes.
pub open spec fn sort_entries(s: Seq<EntryModel>) -> Seq<EntryModel>
    decreases s.len(),
{
    if s.len() == 0 {
        Seq::empty()
    } else {
        insert_entry(sort_entries(s.drop_last()), s.last())
    }
}

/// The byte stream a tree denotes once its entries stand in order: for
/// each entry the path bytes, then the contents.
pub open spec fn stream_of(s: Seq<EntryModel>) -> Seq<u8>
    decreases s.len(),
{
    if s.len() == 0 {
        Seq::empty()
    } else {
        stream_of(s.drop_last()) + s.last().path + s.last().data
    }
}

/// The byte stream of a directory: its entries sorted by relative path,
/// then concatenated.
pub open spec fn dir_stream(entries: Seq<EntryModel>) -> Seq<u8> {
    stream_of(sort_entries(entries))
}

/// The fingerprint of a whole directory tree.
pub open spec fn dir_checksum_of(entries: Seq<EntryModel>) -> Seq<char> {
    checksum_of(dir_stream(entries))
}

fn clone_tree_file(f: &TreeFile) -> (r: TreeFile)
    ensures
        r@ == f@,
        r.rel_path@ == f.rel_path@,
        r.data@ == f.data@,
{
    let mut data: Vec<u8> = Vec::new();
    let mut i: usize = 0;
    while i < f.data.len()
        invariant
            i <= f.data.len(),
            data@ =~= f.data@.take(i as int),
        decreases f.data.len() - i,
    {
        data.push(f.data[i]);
        proof {
            assert(data@ =~= f.data@.take(i + 1));
        }
        i = i + 1;
    }
    proof {
        assert(f.data@.take(f.data@.len() as int) =~= f.data@);
    }
    TreeFile { rel_path: f.rel_path.clone(), data }
}

/// The first position whose entry's path is strictly greater than the
/// given path bytes.
fn find_insert_pos(out: &Vec<TreeFile>, fb: &Vec<u8>) -> (k: usize)
    ensures
        k <= out.len(),
        forall|j: int| 0 <= j < k ==> !bytes_lt(fb@, entry_models(out@)[j].path),
        k < out.len() ==> bytes_lt(fb@, entry_models(out@)[k as int].path),
{
    let mut k: usize = 0;
    while k < out.len()
        invariant
            k <= out.len(),
            forall|j: int| 0 <= j < k ==> !bytes_lt(fb@, entry_models(out@)[j].path),
        decreases out.len() - k,
    {
        let ob = out[k].rel_path.as_str().as_bytes_vec();
        proof {
            assert(entry_models(out@)[k as int].path == ob@);
        }
        if bytes_less(fb, &ob) {
            return k;
        }
        k = k + 1;
    }
    k
}

/// Sorts tree entries by relative path bytes, stably.
fn sort_tree_files(files: &Vec<TreeFile>) -> (r: Vec<TreeFile>)
    ensures
        entry_models(r@) == sort_entries(entry_models(files@)),
{
    let mut out: Vec<TreeFile> = Vec::new();
    let mut i: usize = 0;
    proof {
        assert(entry_models(files@).take(0) =~= Seq::<EntryModel>::empty());
        assert(entry_models(out@) =~= sort_entries(entry_models(files@).take(0)));
    }
    while i < files.len()
        invariant
            i <= files.len(),
            entry_models(out@) == sort_entries(entry_models(files@).take(i as int)),
        decreases files.len() - i,
    {
        let f = clone_tree_file(&files[i]);
        let fb = f.rel_path.as_str().as_bytes_vec();
        let k = find_insert_pos(&out, &fb);
        proof {
            lemma_insert_entry_at(entry_models(out@), f@, k as int);
        }
        out.insert(k, f);
        proof {
            assert(entry_models(files@).take(i + 1).drop_last() =~= entry_models(
                files@,
            ).take(i as int));
            assert(entry_models(files@).take(i + 1).last() == entry_models(files@)[i as int]);
            assert(entry_models(out@) =~= sort_entries(entry_models(files@).take(i as int)).insert(
                k as int,
                entry_models(files@)[i as int],
            ));
        }
        i = i + 1;
    }
    proof {
        assert(entry_models(files@).take(files@.len() as int) =~= entry_models(files@));
    }
    out
}

/// Inserting at the first strictly-greater position is what
/// `insert_entry` does.
proof fn lemma_insert_entry_at(s: Seq<EntryModel>, e: EntryModel, k: int)
    requires
        0 <= k <= s.len(),
        forall|j: int| 0 <= j < k ==> !bytes_lt(e.path, s[j].path),
        k == s.len() || bytes_lt(e.path, s[k].path),
    ensures
        insert_entry(s, e) == s.insert(k, e),
    decreases s.len(),
{
    if s.len() == 0 {
        assert(insert_entry(s, e) =~= s.insert(0, e));
    } else if k == 0 {
        assert(bytes_lt(e.path, s[0].path));
        assert(insert_entry(s, e) =~= s.insert(0, e));
    } else {
        assert(!bytes_lt(e.path, s[0].path));
        lemma_insert_entry_at(s.skip(1), e, k - 1);
        assert(insert_entry(s, e) == seq![s[0]] + insert_entry(s.skip(1), e));
        assert(seq![s[0]] + s.skip(1).insert(k - 1, e) =~= s.insert(k, e));
    }
}

/// The fingerprint of a directory tree given as its contained files.
pub fn dir_checksum(files: &Vec<TreeFile>) -> (r: String)
    ensures
        r@ == dir_checksum_of(entry_models(files@)),
{
    let sorted = sort_tree_files(files);
    let mut stream: Vec<u8> = Vec::new();
    let mut i: usize = 0;
    proof {
        assert(entry_models(sorted@).take(0) =~= Seq::<EntryModel>::empty());
        assert(stream@ =~= stream_of(entry_models(sorted@).take(0)));
    }
    while i < sorted.len()
        invariant
            i <= sorted.len(),
            entry_models(sorted@) == sort_entries(entry_models(files@)),
            stream@ == stream_of(entry_models(sorted@).take(i as int)),
        decreases sorted.len() - i,
    {
        let pb = sorted[i].rel_path.as_str().as_bytes_vec();
        let mut j: usize = 0;
        let ghost mid = stream@;
        while j < pb.len()
            invariant
                j <= pb.len(),
                stream@ =~= mid + pb@.take(j as int),
            decreases pb.len() - j,
        {
            stream.push(pb[j]);
            proof {
                assert(stream@ =~= mid + pb@.take(j + 1));
            }
            j = j + 1;
        }
        let mut j: usize = 0;
        let ghost mid2 = stream@;
        let n = sorted[i].data.len();
        while j < n
            invariant
                j <= n,
                i < sorted.len(),
                n == sorted@[i as int].data@.len(),
                stream@ =~= mid2 + sorted@[i as int].data@.take(j as int),
            decreases n - j,
        {
            let b = sorted[i].data[j];
            stream.push(b);
            proof {
                assert(stream@ =~= mid2 + sorted@[i as int].data@.take(j + 1));
            }
            j = j + 1;
        }
        proof {
            assert(pb@.take(pb@.len() as int) =~= pb@);
            let ghost d = sorted@[i as int].data@;
            assert(d.take(d.len() as int) =~= d);
            assert(entry_models(sorted@).take(i + 1).drop_last() =~= entry_models(sorted@).take(
                i as int,
            ));
            assert(entry_models(sorted@).take(i + 1).last() == entry_models(sorted@)[i as int]);
            assert(stream@ =~= stream_of(entry_models(sorted@).take(i + 1)));
        }
        i = i + 1;
    }
    proof {
        assert(entry_models(sorted@).take(sorted@.len() as int) =~= entry_models(sorted@));
    }
    let digest = sha256_digest(&stream);
    to_hex(&digest)
}

// ---------------------------------------------------------------------------
// Order independence of the tree fingerprint
// ---------------------------------------------------------------------------

proof fn lemma_bytes_lt_irrefl(a: Seq<u8>)
    ensures
        !bytes_lt(a, a),
    decreases a.len(),
{
    if a.len() > 0 {
        lemma_bytes_lt_irrefl(a.skip(1));
    }
}

proof fn lemma_bytes_lt_asym(a: Seq<u8>, b: Seq<u8>)
    requires
        bytes_lt(a, b),
    ensures
        !bytes_lt(b, a),
    decreases a.len(),
{
    if b.len() > 0 && a.len() > 0 && a[0] == b[0] {
        lemma_bytes_lt_asym(a.skip(1), b.skip(1));
    }
}

proof fn lemma_bytes_lt_trans(a: Seq<u8>, b: Seq<u8>, c: Seq<u8>)
    requires
        bytes_lt(a, b),
        bytes_lt(b, c),
    ensures
        bytes_lt(a, c),
    decreases a.len() + b.len() + c.len(),
{
    if a.len() > 0 && b.len() > 0 && c.len() > 0 && a[0] == b[0] && b[0] == c[0] {
        lemma_bytes_lt_trans(a.skip(1), b.skip(1), c.skip(1));
    }
}

proof fn lemma_bytes_lt_connex(a: Seq<u8>, b: Seq<u8>)
    requires
        !bytes_lt(a, b),
        !bytes_lt(b, a),
    ensures
        a == b,
    decreases a.len(),
{
    if a.len() > 0 && b.len() > 0 && a[0] == b[0] {
        lemma_bytes_lt_connex(a.skip(1), b.skip(1));
        assert(a =~= seq![a[0]] + a.skip(1));
        assert(b =~= seq![b[0]] + b.skip(1));
    } else {
        assert(a.len() == 0 && b.len() == 0);
        assert(a =~= b);
    }
}

/// A total order on tree entries: by path bytes, ties by content bytes.
pub open spec fn leq_entry(a: EntryModel, b: EntryModel) -> bool {
    bytes_lt(a.path, b.path) || (a.path == b.path && (bytes_lt(a.data, b.data) || a.data
        == b.data))
}

proof fn lemma_leq_entry_total()
    ensures
        vstd::relations::total_ordering(|a: EntryModel, b: EntryModel| leq_entry(a, b)),
{
    let leq = |a: EntryModel, b: EntryModel| leq_entry(a, b);
    assert forall|a: EntryModel| #[trigger] leq(a, a) by {}
    assert forall|a: EntryModel, b: EntryModel| #[trigger] leq(a, b) && #[trigger] leq(
        b,
        a,
    ) implies a == b by {
        if bytes_lt(a.path, b.path) {
            lemma_bytes_lt_asym(a.path, b.path);
        }
        if bytes_lt(b.path, a.path) {
            lemma_bytes_lt_asym(b.path, a.path);
        }
        assert(a.path == b.path);
        if bytes_lt(a.data, b.data) {
            lemma_bytes_lt_asym(a.data, b.data);
        }
        if bytes_lt(b.data, a.data) {
            lemma_bytes_lt_asym(b.data, a.data);
        }
        assert(a.data == b.data);
        assert(a =~= b);
    }
    assert forall|a: EntryModel, b: EntryModel, c: EntryModel| #[trigger] leq(a, b)
        && #[trigger] leq(b, c) implies leq(a, c) by {
        if bytes_lt(a.path, b.path) && bytes_lt(b.path, c.path) {
            lemma_bytes_lt_trans(a.path, b.path, c.path);
        }
        if a.path == b.path && b.path == c.path && bytes_lt(a.data, b.data) && bytes_lt(
            b.data,
            c.data,
        ) {
            lemma_bytes_lt_trans(a.data, b.data, c.data);
        }
    }
    assert forall|a: EntryModel, b: EntryModel| !(#[trigger] leq(a, b)) implies #[trigger] leq(
        b,
        a,
    ) by {
        if !bytes_lt(a.path, b.path) && !bytes_lt(b.path, a.path) {
            lemma_bytes_lt_connex(a.path, b.path);
            if !bytes_lt(a.data, b.data) && !bytes_lt(b.data, a.data) {
                lemma_bytes_lt_connex(a.data, b.data);
            }
        }
    }
}

proof fn lemma_insert_entry_multiset(s: Seq<EntryModel>, e: EntryModel)
    ensures
        insert_entry(s, e).to_multiset() == s.to_multiset().insert(e),
    decreases s.len(),
{
    broadcast use vstd::seq_lib::group_to_multiset_ensures;
    broadcast use vstd::seq_lib::lemma_multiset_commutative;
    broadcast use vstd::multiset::group_multiset_axioms;

    if s.len() == 0 {
        assert(insert_entry(s, e) =~= Seq::<EntryModel>::empty().push(e));
        assert(Seq::<EntryModel>::empty().push(e).to_multiset() =~= s.to_multiset().insert(e));
    } else if bytes_lt(e.path, s[0].path) {
        assert(seq![e] =~= Seq::<EntryModel>::empty().push(e));
        assert((seq![e] + s).to_multiset() =~= seq![e].to_multiset().add(s.to_multiset()));
        assert(seq![e].to_multiset() =~= Seq::<EntryModel>::empty().to_multiset().insert(e));
        assert((seq![e] + s).to_multiset() =~= s.to_multiset().insert(e));
    } else {
        lemma_insert_entry_multiset(s.skip(1), e);
        assert(seq![s[0]] =~= Seq::<EntryModel>::empty().push(s[0]));
        assert((seq![s[0]] + insert_entry(s.skip(1), e)).to_multiset()
            =~= seq![s[0]].to_multiset().add(insert_entry(s.skip(1), e).to_multiset()));
        assert(seq![s[0]].to_multiset() =~= Seq::<EntryModel>::empty().to_multiset().insert(
            s[0],
        ));
        assert(s =~= seq![s[0]] + s.skip(1));
        assert(s.to_multiset() =~= seq![s[0]].to_multiset().add(s.skip(1).to_multiset()));
        assert(insert_entry(s, e).to_multiset() =~= s.to_multiset().insert(e));
    }
}

proof fn lemma_sort_entries_multiset(s: Seq<EntryModel>)
    ensures
        sort_entries(s).to_multiset() == s.to_multiset(),
    decreases s.len(),
{
    broadcast use vstd::seq_lib::group_to_multiset_ensures;

    if s.len() > 0 {
        lemma_sort_entries_multiset(s.drop_last());
        lemma_insert_entry_multiset(sort_entries(s.drop_last()), s.last());
        assert(s =~= s.drop_last().push(s.last()));
        assert(s.drop_last().push(s.last()).to_multiset() =~= s.drop_last().to_multiset().insert(
            s.last(),
        ));
    }
}

/// Sortedness by path bytes.
pub open spec fn path_sorted(s: Seq<EntryModel>) -> bool {
    forall|i: int, j: int|
        0 <= i <= j < s.len() ==> !bytes_lt((#[trigger] s[j]).path, (#[trigger] s[i]).path)
}

proof fn lemma_insert_entry_sorted(s: Seq<EntryModel>, e: EntryModel)
    requires
        path_sorted(s),
    ensures
        path_sorted(insert_entry(s, e)),
    decreases s.len(),
{
    broadcast use vstd::seq_lib::group_to_multiset_ensures;

    let r = insert_entry(s, e);
    if s.len() == 0 {
        assert forall|i: int, j: int| 0 <= i <= j < r.len() implies !bytes_lt(
            (#[trigger] r[j]).path,
            (#[trigger] r[i]).path,
        ) by {
            lemma_bytes_lt_irrefl(e.path);
        }
    } else if bytes_lt(e.path, s[0].path) {
        assert forall|i: int, j: int| 0 <= i <= j < r.len() implies !bytes_lt(
            (#[trigger] r[j]).path,
            (#[trigger] r[i]).path,
        ) by {
            if i == j {
                lemma_bytes_lt_irrefl(r[i].path);
            } else if i == 0 && j > 0 {
                assert(r[j] == s[j - 1]);
                if bytes_lt(s[j - 1].path, e.path) {
                    lemma_bytes_lt_trans(s[j - 1].path, e.path, s[0].path);
                }
            } else if i > 0 {
                assert(r[i] == s[i - 1]);
                assert(r[j] == s[j - 1]);
            }
        }
    } else {
        assert(forall|i: int, j: int|
            0 <= i <= j < s.skip(1).len() ==> !bytes_lt(
                (#[trigger] s.skip(1)[j]).path,
                (#[trigger] s.skip(1)[i]).path,
            )) by {
            assert(forall|i: int| 0 <= i < s.skip(1).len() ==> s.skip(1)[i] == s[i + 1]);
        }
        lemma_insert_entry_sorted(s.skip(1), e);
        lemma_insert_entry_multiset(s.skip(1), e);
        let inner = insert_entry(s.skip(1), e);
        assert forall|k: int| 0 <= k < inner.len() implies !bytes_lt(
            (#[trigger] inner[k]).path,
            s[0].path,
        ) by {
            assert(inner.to_multiset().contains(inner[k]));
            assert(inner.to_multiset() == s.skip(1).to_multiset().insert(e));
            if inner[k] == e {
            } else {
                assert(s.skip(1).to_multiset().count(inner[k]) > 0);
                assert(s.skip(1).contains(inner[k]));
                let w = choose|w: int| 0 <= w < s.skip(1).len() && s.skip(1)[w] == inner[k];
                assert(s.skip(1)[w] == s[w + 1]);
                assert(!bytes_lt(s[w + 1].path, s[0].path));
            }
        }
        assert forall|i: int, j: int| 0 <= i <= j < r.len() implies !bytes_lt(
            (#[trigger] r[j]).path,
            (#[trigger] r[i]).path,
        ) by {
            if i == j {
                lemma_bytes_lt_irrefl(r[i].path);
            } else if i == 0 && j > 0 {
                assert(r[j] == inner[j - 1]);
            } else if i > 0 {
                assert(r[i] == inner[i - 1]);
                assert(r[j] == inner[j - 1]);
            }
        }
    }
}

proof fn lemma_sort_entries_sorted(s: Seq<EntryModel>)
    ensures
        path_sorted(sort_entries(s)),
    decreases s.len(),
{
    if s.len() > 0 {
        lemma_sort_entries_sorted(s.drop_last());
        lemma_insert_entry_sorted(sort_entries(s.drop_last()), s.last());
    }
}

/// No two entries share a relative path.
pub open spec fn distinct_paths(s: Seq<EntryModel>) -> bool {
    forall|i: int, j: int|
        0 <= i < s.len() && 0 <= j < s.len() && i != j ==> (#[trigger] s[i]).path != (
        #[trigger] s[j]).path
}

proof fn lemma_two_indexes_count(s: Seq<EntryModel>, i: int, j: int)
    requires
        0 <= i < s.len(),
        0 <= j < s.len(),
        i != j,
        s[i] == s[j],
    ensures
        s.to_multiset().count(s[i]) >= 2,
{
    broadcast use vstd::seq_lib::group_to_multiset_ensures;
    broadcast use vstd::multiset::group_multiset_axioms;

    let t = s.remove(i);
    assert(t.to_multiset() =~= s.to_multiset().remove(s[i]));
    if j < i {
        assert(t[j] == s[j]);
        assert(t.contains(s[j]));
    } else {
        assert(t[j - 1] == s[j]);
        assert(t.contains(s[j]));
    }
    assert(t.to_multiset().count(s[j]) > 0);
}

proof fn lemma_distinct_transfer(a: Seq<EntryModel>, b: Seq<EntryModel>)
    requires
        a.to_multiset() == b.to_multiset(),
        distinct_paths(a),
    ensures
        distinct_paths(b),
{
    broadcast use vstd::seq_lib::group_to_multiset_ensures;
    broadcast use vstd::multiset::group_multiset_axioms;

    assert forall|i: int, j: int|
        0 <= i < b.len() && 0 <= j < b.len() && i != j implies (#[trigger] b[i]).path != (
        #[trigger] b[j]).path by {
        if b[i] == b[j] {
            lemma_two_indexes_count(b, i, j);
            assert(a.to_multiset().count(b[i]) >= 2);
            let x = b[i];
            assert(a.contains(x));
            let w1 = choose|w: int| 0 <= w < a.len() && a[w] == x;
            let a2 = a.remove(w1);
            assert(a2.to_multiset() =~= a.to_multiset().remove(x));
            assert(a2.to_multiset().count(x) >= 1);
            assert(a2.contains(x));
            let w2 = choose|w: int| 0 <= w < a2.len() && a2[w] == x;
            if w2 < w1 {
                assert(a[w2] == x);
                assert(a[w2].path == a[w1].path);
            } else {
                assert(a[w2 + 1] == x);
                assert(a[w2 + 1].path == a[w1].path);
            }
        } else if b[i].path == b[j].path {
            assert(b.to_multiset().contains(b[i]));
            assert(b.to_multiset().contains(b[j]));
            assert(a.contains(b[i]));
            assert(a.contains(b[j]));
            let w1 = choose|w: int| 0 <= w < a.len() && a[w] == b[i];
            let w2 = choose|w: int| 0 <= w < a.len() && a[w] == b[j];
            assert(w1 != w2);
            assert(a[w1].path != a[w2].path);
        }
    }
}

/// The tree fingerprint does not depend on the order in which the
/// walker yields the files: two listings of the same set of entries,
/// with no relative path repeated, denote the same byte stream and so
/// the same checksum. Renaming the tree root changes no relative path,
/// so it cannot change the fingerprint either.
pub proof fn lemma_dir_checksum_order_independent(a: Seq<EntryModel>, b: Seq<EntryModel>)
    requires
        a.to_multiset() == b.to_multiset(),
        distinct_paths(a),
    ensures
        dir_stream(a) == dir_stream(b),
        dir_checksum_of(a) == dir_checksum_of(b),
{
    broadcast use vstd::seq_lib::group_to_multiset_ensures;

    let leq = |x: EntryModel, y: EntryModel| leq_entry(x, y);
    let sa = sort_entries(a);
    let sb = sort_entries(b);
    lemma_sort_entries_multiset(a);
    lemma_sort_entries_multiset(b);
    lemma_sort_entries_sorted(a);
    lemma_sort_entries_sorted(b);
    lemma_distinct_transfer(a, sa);
    lemma_distinct_transfer(a, sb);
    lemma_leq_entry_total();
    assert(vstd::relations::sorted_by(sa, leq)) by {
        assert forall|i: int, j: int| 0 <= i < j < sa.len() implies leq(sa[i], sa[j]) by {
            assert(!bytes_lt(sa[j].path, sa[i].path));
            assert(sa[i].path != sa[j].path);
            if !bytes_lt(sa[i].path, sa[j].path) {
                lemma_bytes_lt_connex(sa[i].path, sa[j].path);
            }
        }
    }
    assert(vstd::relations::sorted_by(sb, leq)) by {
        assert forall|i: int, j: int| 0 <= i < j < sb.len() implies leq(sb[i], sb[j]) by {
            assert(!bytes_lt(sb[j].path, sb[i].path));
            assert(sb[i].path != sb[j].path);
            if !bytes_lt(sb[i].path, sb[j].path) {
                lemma_bytes_lt_connex(sb[i].path, sb[j].path);
            }
        }
    }
    vstd::seq_lib::lemma_sorted_unique(sa, sb, leq);
    assert(sa =~= sb);
}

} // verus!
