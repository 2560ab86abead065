//! The content-hashing engine: reduces the bytes of one file, or an ordered
//! multi-file set, to a single deterministic lowercase-hex digest.

use vstd::prelude::*;

use vstd::relations::{sorted_by, total_ordering};
use vstd::seq_lib::lemma_sorted_unique;
use vstd::string::StringSliceAdditionalSpecFns;
use vstd::utf8::{encode_utf8, encode_utf8_decode_utf8};

use crate::errors::DriftError;
use crate::fsio::read_file_bytes;
use crate::text::{from_chars, push_all, to_chars};

verus! {

/// What the 256-bit digest function returns for a byte sequence: a function
/// of the input bytes alone.
pub uninterp spec fn sha256_of(data: Seq<u8>) -> Seq<u8>;

/// Relies on `sha2::Sha256::digest`: the 256-bit digest of the input, which
/// depends on the input bytes alone and is 32 bytes long.
#[verifier::external_body]
fn sha256_digest(data: &[u8]) -> (r: Vec<u8>)
    ensures
        r@ == sha256_of(data@),
        r@.len() == 32,
{
    <sha2::Sha256 as sha2::Digest>::digest(data).as_slice().to_vec()
}

/// The lowercase hexadecimal digit for a value below sixteen.
pub open spec fn spec_hex_digit(n: u8) -> char {
    if n == 0 {
        '0'
    } else if n == 1 {
        '1'
    } else if n == 2 {
        '2'
    } else if n == 3 {
        '3'
    } else if n == 4 {
        '4'
    } else if n == 5 {
        '5'
    } else if n == 6 {
        '6'
    } else if n == 7 {
        '7'
    } else if n == 8 {
        '8'
    } else if n == 9 {
        '9'
    } else if n == 10 {
        'a'
    } else if n == 11 {
        'b'
    } else if n == 12 {
        'c'
    } else if n == 13 {
        'd'
    } else if n == 14 {
        'e'
    } else {
        'f'
    }
}

/// Whether `c` is a lowercase hexadecimal digit.
pub open spec fn spec_is_hex_char(c: char) -> bool {
    c == '0' || c == '1' || c == '2' || c == '3' || c == '4' || c == '5' || c == '6' || c == '7'
        || c == '8' || c == '9' || c == 'a' || c == 'b' || c == 'c' || c == 'd' || c == 'e' || c
        == 'f'
}

/// The bytes rendered as lowercase hex, two digits per byte.
pub open spec fn spec_hex(bytes: Seq<u8>) -> Seq<char>
    decreases bytes.len(),
{
    if bytes.len() == 0 {
        Seq::empty()
    } else {
        seq![spec_hex_digit(bytes[0] / 16), spec_hex_digit(bytes[0] % 16)] + spec_hex(
            bytes.drop_first(),
        )
    }
}

/// Hex rendering doubles the length and yields hex digits only.
pub proof fn lemma_hex_props(bytes: Seq<u8>)
    ensures
        spec_hex(bytes).len() == 2 * bytes.len(),
        forall|i: int| 0 <= i < spec_hex(bytes).len() ==> spec_is_hex_char(spec_hex(bytes)[i]),
    decreases bytes.len(),
{
    if bytes.len() == 0 {
    } else {
        lemma_hex_props(bytes.drop_first());
    }
}

/// Rendering one more byte appends its two digits.
proof fn lemma_hex_push(bytes: Seq<u8>, b: u8)
    ensures
        spec_hex(bytes.push(b)) == spec_hex(bytes) + seq![
            spec_hex_digit(b / 16),
            spec_hex_digit(b % 16),
        ],
    decreases bytes.len(),
{
    let p = bytes.push(b);
    if bytes.len() == 0 {
        assert(p.drop_first() =~= Seq::<u8>::empty());
        assert(p[0] == b);
        assert(spec_hex(p.drop_first()) =~= Seq::<char>::empty());
        assert(spec_hex(p) =~= spec_hex(bytes) + seq![
            spec_hex_digit(b / 16),
            spec_hex_digit(b % 16),
        ]);
    } else {
        lemma_hex_push(bytes.drop_first(), b);
        assert(p.drop_first() =~= bytes.drop_first().push(b));
        assert(p[0] == bytes[0]);
        assert(spec_hex(p) =~= spec_hex(bytes) + seq![
            spec_hex_digit(b / 16),
            spec_hex_digit(b % 16),
        ]);
    }
}

/// The lowercase hexadecimal digit for a value below sixteen.
fn hex_digit(n: u8) -> (r: char)
    requires
        n < 16,
    ensures
        r == spec_hex_digit(n),
{
    match n {
        0 => '0',
        1 => '1',
        2 => '2',
        3 => '3',
        4 => '4',
        5 => '5',
        6 => '6',
        7 => '7',
        8 => '8',
        9 => '9',
        10 => 'a',
        11 => 'b',
        12 => 'c',
        13 => 'd',
        14 => 'e',
        _ => 'f',
    }
}

/// Renders bytes as lowercase hex.
fn to_hex(bytes: &Vec<u8>) -> (r: Vec<char>)
    ensures
        r@ == spec_hex(bytes@),
{
    let n = bytes.len();
    let mut out: Vec<char> = Vec::new();
    let mut k: usize = 0;
    proof {
        assert(bytes@.take(0) =~= Seq::<u8>::empty());
    }
    while k < n
        invariant
            n == bytes@.len(),
            k <= n,
            out@ == spec_hex(bytes@.take(k as int)),
        decreases n - k,
    {
        let b = bytes[k];
        proof {
            lemma_hex_push(bytes@.take(k as int), b);
            assert(bytes@.take(k as int).push(b) =~= bytes@.take(k + 1));
        }
        out.push(hex_digit(b / 16));
        out.push(hex_digit(b % 16));
        proof {
            assert(out@ =~= spec_hex(bytes@.take(k + 1)));
        }
        k += 1;
    }
    proof {
        assert(bytes@.take(n as int) =~= bytes@);
    }
    out
}

/// The digest of a byte sequence, rendered as lowercase hex.
pub open spec fn spec_sha256_hex(data: Seq<u8>) -> Seq<char> {
    spec_hex(sha256_of(data))
}

/// A well-formed digest: 64 lowercase hexadecimal characters.
pub open spec fn spec_is_digest(s: Seq<char>) -> bool {
    s.len() == 64 && forall|i: int| 0 <= i < s.len() ==> spec_is_hex_char(s[i])
}

/// The digest of a byte buffer, as 64 characters of lowercase hex.
pub fn hash_bytes(data: &Vec<u8>) -> (r: String)
    ensures
        r@ == spec_sha256_hex(data@),
        spec_is_digest(r@),
{
    let d = sha256_digest(data.as_slice());
    proof {
        lemma_hex_props(d@);
    }
    let hx = to_hex(&d);
    from_chars(&hx)
}

/// Hashing the same content twice yields identical digests: the digest is a
/// function of the bytes alone.
pub proof fn lemma_hash_deterministic(a: Seq<u8>, b: Seq<u8>)
    requires
        a == b,
    ensures
        spec_sha256_hex(a) == spec_sha256_hex(b),
{
}

/// Byte-wise lexicographic order.
pub open spec fn bytes_le(a: Seq<u8>, b: Seq<u8>) -> bool
    decreases a.len(),
{
    if a.len() == 0 {
        true
    } else if b.len() == 0 {
        false
    } else if a[0] == b[0] {
        bytes_le(a.drop_first(), b.drop_first())
    } else {
        a[0] < b[0]
    }
}

/// The byte-wise order relates every two sequences.
proof fn lemma_bytes_le_connected(a: Seq<u8>, b: Seq<u8>)
    ensures
        bytes_le(a, b) || bytes_le(b, a),
    decreases a.len(),
{
    if a.len() == 0 || b.len() == 0 {
    } else if a[0] == b[0] {
        lemma_bytes_le_connected(a.drop_first(), b.drop_first());
    }
}

/// The byte-wise order is antisymmetric.
proof fn lemma_bytes_le_antisymmetric(a: Seq<u8>, b: Seq<u8>)
    requires
        bytes_le(a, b),
        bytes_le(b, a),
    ensures
        a == b,
    decreases a.len(),
{
    if a.len() == 0 {
        assert(b.len() == 0);
        assert(a =~= b);
    } else {
        assert(a[0] == b[0]);
        lemma_bytes_le_antisymmetric(a.drop_first(), b.drop_first());
        assert(a.len() == b.len());
        assert forall|i: int| 0 <= i < a.len() implies a[i] == b[i] by {
            if i > 0 {
                assert(a[i] == a.drop_first()[i - 1]);
                assert(b[i] == b.drop_first()[i - 1]);
            }
        }
        assert(a =~= b);
    }
}

/// The byte-wise order is transitive.
proof fn lemma_bytes_le_transitive(a: Seq<u8>, b: Seq<u8>, c: Seq<u8>)
    requires
        bytes_le(a, b),
        bytes_le(b, c),
    ensures
        bytes_le(a, c),
    decreases a.len(),
{
    if a.len() == 0 || b.len() == 0 || c.len() == 0 {
    } else if a[0] == b[0] && b[0] == c[0] {
        lemma_bytes_le_transitive(a.drop_first(), b.drop_first(), c.drop_first());
    }
}

/// One file of a multi-file set: its path and its full content.
#[derive(Debug)]
pub struct FileData {
    pub path: String,
    pub contents: Vec<u8>,
}

impl DeepView for FileData {
    type V = (Seq<char>, Seq<u8>);

    open spec fn deep_view(&self) -> Self::V {
        (self.path@, self.contents@)
    }
}

/// The order files are fed to the digest: by the byte-wise order of their
/// path's encoding, ties broken by content.
pub open spec fn file_le(x: (Seq<char>, Seq<u8>), y: (Seq<char>, Seq<u8>)) -> bool {
    if encode_utf8(x.0) == encode_utf8(y.0) {
        bytes_le(x.1, y.1)
    } else {
        bytes_le(encode_utf8(x.0), encode_utf8(y.0))
    }
}

/// The file order as a closed-over relation, for sorting.
pub open spec fn file_order() -> spec_fn((Seq<char>, Seq<u8>), (Seq<char>, Seq<u8>)) -> bool {
    |x: (Seq<char>, Seq<u8>), y: (Seq<char>, Seq<u8>)| file_le(x, y)
}

/// The file order is a total ordering, so sorting by it has a unique result.
pub proof fn lemma_file_order_total()
    ensures
        total_ordering(file_order()),
{
    let le = file_order();
    assert forall|x: (Seq<char>, Seq<u8>)| #[trigger] le(x, x) by {
        lemma_bytes_le_connected(x.1, x.1);
    }
    assert forall|x: (Seq<char>, Seq<u8>), y: (Seq<char>, Seq<u8>)|
        #[trigger] le(x, y) && #[trigger] le(y, x) implies x == y by {
        if encode_utf8(x.0) == encode_utf8(y.0) {
            lemma_bytes_le_antisymmetric(x.1, y.1);
            encode_utf8_decode_utf8(x.0);
            encode_utf8_decode_utf8(y.0);
            assert(x.0 == y.0);
        } else {
            lemma_bytes_le_antisymmetric(encode_utf8(x.0), encode_utf8(y.0));
        }
    }
    assert forall|x: (Seq<char>, Seq<u8>), y: (Seq<char>, Seq<u8>), z: (Seq<char>, Seq<u8>)|
        #[trigger] le(x, y) && #[trigger] le(y, z) implies le(x, z) by {
        let ex = encode_utf8(x.0);
        let ey = encode_utf8(y.0);
        let ez = encode_utf8(z.0);
        if ex == ey && ey == ez {
            lemma_bytes_le_transitive(x.1, y.1, z.1);
        } else if ex == ey {
        } else if ey == ez {
        } else {
            lemma_bytes_le_transitive(ex, ey, ez);
            if ex == ez {
                lemma_bytes_le_antisymmetric(ey, ez);
            }
        }
    }
    assert forall|x: (Seq<char>, Seq<u8>), y: (Seq<char>, Seq<u8>)| #[trigger] le(x, y) || #[trigger] le(
        y,
        x,
    ) by {
        if encode_utf8(x.0) == encode_utf8(y.0) {
            lemma_bytes_le_connected(x.1, y.1);
        } else {
            lemma_bytes_le_connected(encode_utf8(x.0), encode_utf8(y.0));
        }
    }
}

/// A shared prefix does not decide the byte-wise order.
proof fn lemma_bytes_le_common_prefix(a: Seq<u8>, b: Seq<u8>, i: int)
    requires
        0 <= i <= a.len(),
        i <= b.len(),
        forall|k: int| 0 <= k < i ==> a[k] == b[k],
    ensures
        bytes_le(a, b) == bytes_le(a.skip(i), b.skip(i)),
    decreases i,
{
    if i == 0 {
        assert(a.skip(0) =~= a);
        assert(b.skip(0) =~= b);
    } else {
        assert(a[0] == b[0]);
        let a1 = a.drop_first();
        let b1 = b.drop_first();
        assert forall|k: int| 0 <= k < i - 1 implies a1[k] == b1[k] by {
            assert(a1[k] == a[k + 1]);
            assert(b1[k] == b[k + 1]);
        }
        lemma_bytes_le_common_prefix(a1, b1, i - 1);
        assert(a.skip(i) =~= a1.skip(i - 1));
        assert(b.skip(i) =~= b1.skip(i - 1));
    }
}

/// Compares two byte buffers in the byte-wise order.
fn bytes_le_exec(a: &Vec<u8>, b: &Vec<u8>) -> (r: bool)
    ensures
        r == bytes_le(a@, b@),
{
    let na = a.len();
    let nb = b.len();
    let n = if na < nb {
        na
    } else {
        nb
    };
    let mut i: usize = 0;
    while i < n
        invariant
            na == a@.len(),
            nb == b@.len(),
            n <= na,
            n <= nb,
            n == na || n == nb,
            i <= n,
            forall|k: int| 0 <= k < i ==> a@[k] == b@[k],
        decreases n - i,
    {
        if a[i] != b[i] {
            proof {
                lemma_bytes_le_common_prefix(a@, b@, i as int);
                assert(a@.skip(i as int)[0] == a@[i as int]);
                assert(b@.skip(i as int)[0] == b@[i as int]);
            }
            return a[i] < b[i];
        }
        i += 1;
    }
    proof {
        lemma_bytes_le_common_prefix(a@, b@, n as int);
        if na <= nb {
            assert(a@.skip(n as int).len() == 0);
        } else {
            assert(a@.skip(n as int).len() > 0);
            assert(b@.skip(n as int).len() == 0);
        }
    }
    na <= nb
}

/// Whether two byte buffers hold the same bytes.
fn eq_bytes(a: &Vec<u8>, b: &Vec<u8>) -> (r: bool)
    ensures
        r == (a@ == b@),
{
    if a.len() != b.len() {
        assert(a@ != b@);
        return false;
    }
    let n = a.len();
    let mut i: usize = 0;
    while i < n
        invariant
            n == a@.len() == b@.len(),
            i <= n,
            forall|k: int| 0 <= k < i ==> a@[k] == b@[k],
        decreases n - i,
    {
        if a[i] != b[i] {
            return false;
        }
        i += 1;
    }
    assert(a@ =~= b@);
    true
}

/// Compares two files in the file order.
fn file_le_exec(x: &FileData, y: &FileData) -> (r: bool)
    ensures
        r == file_le(x.deep_view(), y.deep_view()),
{
    let xb = x.path.as_str().as_bytes_vec();
    let yb = y.path.as_str().as_bytes_vec();
    proof {
        assert(xb@ == encode_utf8(x.path@));
        assert(yb@ == encode_utf8(y.path@));
    }
    if eq_bytes(&xb, &yb) {
        bytes_le_exec(&x.contents, &y.contents)
    } else {
        bytes_le_exec(&xb, &yb)
    }
}

/// The first position in a sorted run whose file does not precede `x`.
fn lower_pos(out: &Vec<FileData>, x: &FileData) -> (idx: usize)
    ensures
        idx <= out@.len(),
        forall|k: int| 0 <= k < idx ==> file_le(out.deep_view()[k], x.deep_view()),
        idx < out@.len() ==> !file_le(out.deep_view()[idx as int], x.deep_view()),
{
    let n = out.len();
    let mut i: usize = 0;
    while i < n
        invariant
            n == out@.len(),
            i <= n,
            forall|k: int| 0 <= k < i ==> file_le(out.deep_view()[k], x.deep_view()),
        decreases n - i,
    {
        proof {
            assert(out.deep_view()[i as int] == out@[i as int].deep_view());
        }
        if !file_le_exec(&out[i], x) {
            return i;
        }
        i += 1;
    }
    n
}

/// Inserts `x` into a sorted run, keeping it sorted.
fn insert_sorted(out: &mut Vec<FileData>, x: FileData)
    requires
        sorted_by(old(out).deep_view(), file_order()),
    ensures
        sorted_by(final (out).deep_view(), file_order()),
        final (out).deep_view().to_multiset() == old(out).deep_view().to_multiset().insert(
            x.deep_view(),
        ),
{
    proof {
        lemma_file_order_total();
    }
    let ghost dv0 = out.deep_view();
    let ghost xv = x.deep_view();
    let idx = lower_pos(out, &x);
    out.insert(idx, x);
    proof {
        let dv = out.deep_view();
        assert(dv =~~= dv0.insert(idx as int, xv));
        let le = file_order();
        assert forall|i: int, j: int| 0 <= i < j < dv.len() implies le(dv[i], dv[j]) by {
            if j < idx {
                assert(dv[i] == dv0[i] && dv[j] == dv0[j]);
            } else if i < idx && j == idx {
                assert(dv[i] == dv0[i] && dv[j] == xv);
            } else if i < idx && j > idx {
                assert(dv[i] == dv0[i] && dv[j] == dv0[j - 1]);
                assert(i < j - 1);
                assert(le(dv0[i], dv0[j - 1]));
            } else if i == idx {
                assert(dv[i] == xv && dv[j] == dv0[j - 1]);
                assert(!le(dv0[idx as int], xv));
                assert(le(xv, dv0[idx as int]));
                if j - 1 > idx {
                    assert(le(dv0[idx as int], dv0[j - 1]));
                }
            } else {
                assert(dv[i] == dv0[i - 1] && dv[j] == dv0[j - 1]);
            }
        }
        // multiset: removing the inserted element gives the old run back
        broadcast use vstd::seq_lib::group_to_multiset_ensures;

        assert(dv.remove(idx as int) =~~= dv0);
        assert(dv[idx as int] == xv);
        assert(dv.remove(idx as int).to_multiset() =~= dv.to_multiset().remove(xv));
        assert(dv.to_multiset().contains(xv));
        assert(dv.to_multiset() =~= dv0.to_multiset().insert(xv));
    }
}

/// Sorts files into the file order.
fn sort_files(v: Vec<FileData>) -> (r: Vec<FileData>)
    ensures
        sorted_by(r.deep_view(), file_order()),
        r.deep_view().to_multiset() == v.deep_view().to_multiset(),
{
    broadcast use vstd::seq_lib::group_to_multiset_ensures;

    let ghost orig = v.deep_view();
    let mut v = v;
    let mut out: Vec<FileData> = Vec::new();
    proof {
        assert(out.deep_view() =~~= Seq::<(Seq<char>, Seq<u8>)>::empty());
        assert(out.deep_view().to_multiset().add(v.deep_view().to_multiset()) =~= orig.to_multiset());
    }
    while v.len() > 0
        invariant
            sorted_by(out.deep_view(), file_order()),
            out.deep_view().to_multiset().add(v.deep_view().to_multiset()) == orig.to_multiset(),
        decreases v@.len(),
    {
        let ghost vdv0 = v.deep_view();
        let x = match v.pop() {
            Some(x) => x,
            None => {
                proof {
                    assert(false);
                }
                return out;
            },
        };
        proof {
            broadcast use vstd::seq_lib::group_to_multiset_ensures;

            assert(vdv0 =~~= v.deep_view().push(x.deep_view()));
            assert(v.deep_view().push(x.deep_view()).to_multiset() =~= v.deep_view().to_multiset().insert(x.deep_view()));
            assert(vdv0.to_multiset() =~= v.deep_view().to_multiset().insert(x.deep_view()));
        }
        insert_sorted(&mut out, x);
        proof {
            assert(out.deep_view().to_multiset().add(v.deep_view().to_multiset()) =~= orig.to_multiset());
        }
    }
    proof {
        assert(v.deep_view() =~~= Seq::<(Seq<char>, Seq<u8>)>::empty());
        assert(out.deep_view().to_multiset() =~= orig.to_multiset());
    }
    out
}

/// The bytes one file contributes to the digest stream: its path's encoding,
/// a separator, its content, and a trailing separator.
pub open spec fn spec_chunk(f: (Seq<char>, Seq<u8>)) -> Seq<u8> {
    encode_utf8(f.0) + seq![10u8] + f.1 + seq![10u8]
}

/// The full byte stream fed to the digest for an ordered file sequence.
pub open spec fn spec_stream(files: Seq<(Seq<char>, Seq<u8>)>) -> Seq<u8>
    decreases files.len(),
{
    if files.len() == 0 {
        Seq::empty()
    } else {
        spec_chunk(files[0]) + spec_stream(files.drop_first())
    }
}

/// One more file appends its chunk to the stream.
proof fn lemma_stream_push(files: Seq<(Seq<char>, Seq<u8>)>, f: (Seq<char>, Seq<u8>))
    ensures
        spec_stream(files.push(f)) == spec_stream(files) + spec_chunk(f),
    decreases files.len(),
{
    let p = files.push(f);
    if files.len() == 0 {
        assert(p.drop_first() =~= Seq::<(Seq<char>, Seq<u8>)>::empty());
        assert(p[0] == f);
        assert(spec_stream(p.drop_first()) =~= Seq::<u8>::empty());
        assert(spec_stream(files) =~= Seq::<u8>::empty());
        assert(spec_stream(p) =~= spec_stream(files) + spec_chunk(f));
    } else {
        lemma_stream_push(files.drop_first(), f);
        assert(p.drop_first() =~= files.drop_first().push(f));
        assert(p[0] == files[0]);
        assert(spec_stream(p) =~= spec_stream(files) + spec_chunk(f));
    }
}

/// The digest of a multi-file set: the files sorted into the file order, the
/// stream of their paths and contents hashed.
pub open spec fn spec_hash_many(files: Seq<(Seq<char>, Seq<u8>)>) -> Seq<char> {
    spec_sha256_hex(spec_stream(files.sort_by(file_order())))
}

/// Hashes a set of named file contents: deterministic in the set alone, since
/// the files are sorted before the stream is built.
pub fn hash_named_contents(files: Vec<FileData>) -> (r: String)
    ensures
        r@ == spec_hash_many(files.deep_view()),
        spec_is_digest(r@),
{
    proof {
        lemma_file_order_total();
        files.deep_view().lemma_sort_by_ensures(file_order());
    }
    let ghost fdv = files.deep_view();
    let sorted = sort_files(files);
    proof {
        lemma_sorted_unique(sorted.deep_view(), fdv.sort_by(file_order()), file_order());
    }
    let n = sorted.len();
    let mut stream: Vec<u8> = Vec::new();
    let mut k: usize = 0;
    proof {
        assert(sorted.deep_view().take(0) =~= Seq::<(Seq<char>, Seq<u8>)>::empty());
    }
    while k < n
        invariant
            n == sorted@.len(),
            k <= n,
            sorted.deep_view() == fdv.sort_by(file_order()),
            stream@ == spec_stream(sorted.deep_view().take(k as int)),
        decreases n - k,
    {
        let ghost sdv = sorted.deep_view();
        proof {
            assert(sdv[k as int] == sorted@[k as int].deep_view());
            lemma_stream_push(sdv.take(k as int), sdv[k as int]);
            assert(sdv.take(k as int).push(sdv[k as int]) =~= sdv.take(k + 1));
        }
        let pb = sorted[k].path.as_str().as_bytes_vec();
        proof {
            assert(pb@ == encode_utf8(sorted@[k as int].path@));
        }
        push_all(&mut stream, &pb);
        stream.push(10u8);
        push_all(&mut stream, &sorted[k].contents);
        stream.push(10u8);
        proof {
            assert(stream@ =~= spec_stream(sdv.take(k + 1)));
        }
        k += 1;
    }
    proof {
        assert(sorted.deep_view().take(n as int) =~= sorted.deep_view());
    }
    hash_bytes(&stream)
}

/// Hashes the full byte content of one file; the digest is the hash of
/// whatever bytes the file held when it was read.
pub fn hash_file(path: &str) -> (r: Result<String, DriftError>)
    ensures
        match r {
            Ok(d) => spec_is_digest(d@) && exists|b: Seq<u8>| d@ == spec_sha256_hex(b),
            Err(e) => e == DriftError::IoError,
        },
{
    let contents = match read_file_bytes(path) {
        Err(_) => {
            return Err(DriftError::IoError);
        },
        Ok(c) => c,
    };
    let d = hash_bytes(&contents);
    proof {
        assert(d@ == spec_sha256_hex(contents@));
    }
    Ok(d)
}

/// Hashes several files together: each path with the content it held when it
/// was read, fed to the multi-file digest. Fails when any file is unreadable,
/// with no partial digest.
pub fn hash_files(paths: &Vec<String>) -> (r: Result<String, DriftError>)
    ensures
        match r {
            Ok(d) => spec_is_digest(d@) && exists|cs: Seq<Seq<u8>>|
                #![trigger cs.len()]
                cs.len() == paths@.len() && d@ == spec_hash_many(
                    Seq::new(paths@.len(), |i: int| (paths@[i]@, cs[i])),
                ),
            Err(e) => e == DriftError::IoError,
        },
{
    let n = paths.len();
    let mut files: Vec<FileData> = Vec::new();
    let mut i: usize = 0;
    while i < n
        invariant
            n == paths@.len(),
            i <= n,
            files@.len() == i,
            forall|k: int| 0 <= k < i ==> files.deep_view()[k].0 == paths@[k]@,
        decreases n - i,
    {
        let contents = match read_file_bytes(paths[i].as_str()) {
            Err(_) => {
                return Err(DriftError::IoError);
            },
            Ok(c) => c,
        };
        let ghost fdv0 = files.deep_view();
        files.push(FileData { path: paths[i].clone(), contents });
        proof {
            assert(files.deep_view() =~~= fdv0.push(files@[i as int].deep_view()));
        }
        i += 1;
    }
    let ghost fdv = files.deep_view();
    let d = hash_named_contents(files);
    proof {
        let wcs = Seq::new(fdv.len(), |k: int| fdv[k].1);
        assert(fdv.len() == n);
        assert(Seq::new(paths@.len(), |k: int| (paths@[k]@, wcs[k])) =~~= fdv);
        assert(wcs.len() == paths@.len());
        assert(d@ == spec_hash_many(Seq::new(paths@.len(), |i: int| (paths@[i]@, wcs[i]))));
        assert(exists|cs: Seq<Seq<u8>>|
            #![trigger cs.len()]
            cs.len() == paths@.len() && d@ == spec_hash_many(
                Seq::new(paths@.len(), |i: int| (paths@[i]@, cs[i])),
            ));
    }
    Ok(d)
}

/// The paths whose mark is set, in order.
pub open spec fn spec_marked(paths: Seq<Seq<char>>, marks: Seq<bool>) -> Seq<Seq<char>>
    decreases paths.len(),
{
    if paths.len() == 0 || marks.len() == 0 {
        Seq::empty()
    } else {
        let rest = spec_marked(paths.drop_first(), marks.drop_first());
        if marks[0] {
            seq![paths[0]] + rest
        } else {
            rest
        }
    }
}

/// Marking one more path appends it exactly when its mark is set.
proof fn lemma_marked_push(paths: Seq<Seq<char>>, marks: Seq<bool>, p: Seq<char>, b: bool)
    requires
        paths.len() == marks.len(),
    ensures
        spec_marked(paths.push(p), marks.push(b)) == spec_marked(paths, marks) + (if b {
            seq![p]
        } else {
            Seq::empty()
        }),
    decreases paths.len(),
{
    let pp = paths.push(p);
    let mm = marks.push(b);
    if paths.len() == 0 {
        assert(pp.drop_first() =~= Seq::<Seq<char>>::empty());
        assert(mm.drop_first() =~= Seq::<bool>::empty());
        assert(pp[0] == p && mm[0] == b);
        assert(spec_marked(pp.drop_first(), mm.drop_first()) =~= Seq::<Seq<char>>::empty());
        assert(spec_marked(paths, marks) =~= Seq::<Seq<char>>::empty());
        assert(spec_marked(pp, mm) =~= spec_marked(paths, marks) + (if b {
            seq![p]
        } else {
            Seq::<Seq<char>>::empty()
        }));
    } else {
        lemma_marked_push(paths.drop_first(), marks.drop_first(), p, b);
        assert(pp.drop_first() =~= paths.drop_first().push(p));
        assert(mm.drop_first() =~= marks.drop_first().push(b));
        assert(pp[0] == paths[0] && mm[0] == marks[0]);
        assert(spec_marked(pp, mm) =~= spec_marked(paths, marks) + (if b {
            seq![p]
        } else {
            Seq::<Seq<char>>::empty()
        }));
    }
}

/// Keeps exactly the marked paths, in order.
pub fn keep_marked(paths: &Vec<String>, marks: &Vec<bool>) -> (r: Vec<String>)
    requires
        marks@.len() == paths@.len(),
    ensures
        r.deep_view() == spec_marked(paths.deep_view(), marks@),
{
    let n = paths.len();
    let mut out: Vec<String> = Vec::new();
    let mut i: usize = 0;
    proof {
        assert(paths.deep_view().len() == n);
        assert(out.deep_view() =~~= spec_marked(paths.deep_view().take(0), marks@.take(0)));
    }
    while i < n
        invariant
            n == paths@.len() == marks@.len(),
            i <= n,
            out.deep_view() == spec_marked(paths.deep_view().take(i as int), marks@.take(i as int)),
        decreases n - i,
    {
        let ghost pdv = paths.deep_view();
        proof {
            assert(pdv.take(i as int).len() == i);
            lemma_marked_push(pdv.take(i as int), marks@.take(i as int), pdv[i as int], marks@[i as int]);
            assert(pdv.take(i as int).push(pdv[i as int]) =~= pdv.take(i + 1));
            assert(marks@.take(i as int).push(marks@[i as int]) =~= marks@.take(i + 1));
        }
        let ghost out0 = out.deep_view();
        if marks[i] {
            out.push(paths[i].clone());
            proof {
                assert(out.deep_view() =~~= out0 + seq![pdv[i as int]]);
            }
        }
        i += 1;
        proof {
            assert(out.deep_view() =~~= spec_marked(pdv.take(i as int), marks@.take(i as int)));
        }
    }
    proof {
        assert(paths.deep_view().take(n as int) =~= paths.deep_view());
        assert(marks@.take(n as int) =~= marks@);
    }
    out
}

/// Probes which of the paths are regular files right now.
pub(crate) fn file_marks(paths: &Vec<String>) -> (r: Vec<bool>)
    ensures
        r@.len() == paths@.len(),
{
    let n = paths.len();
    let mut out: Vec<bool> = Vec::new();
    let mut i: usize = 0;
    while i < n
        invariant
            n == paths@.len(),
            i <= n,
            out@.len() == i,
        decreases n - i,
    {
        out.push(crate::fsio::path_is_file(paths[i].as_str()));
        i += 1;
    }
    out
}

/// The order of path strings: byte-wise on their encodings, as the multi-file
/// digest sorts.
pub open spec fn path_le(x: Seq<char>, y: Seq<char>) -> bool {
    bytes_le(encode_utf8(x), encode_utf8(y))
}

/// The path order as a closed-over relation, for sorting.
pub open spec fn path_order() -> spec_fn(Seq<char>, Seq<char>) -> bool {
    |x: Seq<char>, y: Seq<char>| path_le(x, y)
}

/// The path order is a total ordering, so sorting by it has a unique result.
pub proof fn lemma_path_order_total()
    ensures
        total_ordering(path_order()),
{
    let le = path_order();
    assert forall|x: Seq<char>| #[trigger] le(x, x) by {
        lemma_bytes_le_connected(encode_utf8(x), encode_utf8(x));
    }
    assert forall|x: Seq<char>, y: Seq<char>| #[trigger] le(x, y) && #[trigger] le(y, x) implies x
        == y by {
        lemma_bytes_le_antisymmetric(encode_utf8(x), encode_utf8(y));
        encode_utf8_decode_utf8(x);
        encode_utf8_decode_utf8(y);
    }
    assert forall|x: Seq<char>, y: Seq<char>, z: Seq<char>|
        #[trigger] le(x, y) && #[trigger] le(y, z) implies le(x, z) by {
        lemma_bytes_le_transitive(encode_utf8(x), encode_utf8(y), encode_utf8(z));
    }
    assert forall|x: Seq<char>, y: Seq<char>| #[trigger] le(x, y) || #[trigger] le(y, x) by {
        lemma_bytes_le_connected(encode_utf8(x), encode_utf8(y));
    }
}

/// Compares two path strings in the path order.
fn path_le_exec(x: &String, y: &String) -> (r: bool)
    ensures
        r == path_le(x@, y@),
{
    let xb = x.as_str().as_bytes_vec();
    let yb = y.as_str().as_bytes_vec();
    proof {
        assert(xb@ == encode_utf8(x@));
        assert(yb@ == encode_utf8(y@));
    }
    bytes_le_exec(&xb, &yb)
}

/// The first position in a sorted run whose path does not precede `x`.
fn lower_pos_path(out: &Vec<String>, x: &String) -> (idx: usize)
    ensures
        idx <= out@.len(),
        forall|k: int| 0 <= k < idx ==> path_le(out.deep_view()[k], x@),
        idx < out@.len() ==> !path_le(out.deep_view()[idx as int], x@),
{
    let n = out.len();
    let mut i: usize = 0;
    while i < n
        invariant
            n == out@.len(),
            i <= n,
            forall|k: int| 0 <= k < i ==> path_le(out.deep_view()[k], x@),
        decreases n - i,
    {
        proof {
            assert(out.deep_view()[i as int] == out@[i as int].deep_view());
        }
        if !path_le_exec(&out[i], x) {
            return i;
        }
        i += 1;
    }
    n
}

/// Inserts `x` into a sorted run of paths, keeping it sorted.
fn insert_sorted_path(out: &mut Vec<String>, x: String)
    requires
        sorted_by(old(out).deep_view(), path_order()),
    ensures
        sorted_by(final (out).deep_view(), path_order()),
        final (out).deep_view().to_multiset() == old(out).deep_view().to_multiset().insert(x@),
{
    proof {
        lemma_path_order_total();
    }
    let ghost dv0 = out.deep_view();
    let ghost xv = x@;
    let idx = lower_pos_path(out, &x);
    out.insert(idx, x);
    proof {
        let dv = out.deep_view();
        assert(dv =~~= dv0.insert(idx as int, xv));
        let le = path_order();
        assert forall|i: int, j: int| 0 <= i < j < dv.len() implies le(dv[i], dv[j]) by {
            if j < idx {
                assert(dv[i] == dv0[i] && dv[j] == dv0[j]);
            } else if i < idx && j == idx {
                assert(dv[i] == dv0[i] && dv[j] == xv);
            } else if i < idx && j > idx {
                assert(dv[i] == dv0[i] && dv[j] == dv0[j - 1]);
                assert(i < j - 1);
                assert(le(dv0[i], dv0[j - 1]));
            } else if i == idx {
                assert(dv[i] == xv && dv[j] == dv0[j - 1]);
                assert(!le(dv0[idx as int], xv));
                assert(le(xv, dv0[idx as int]));
                if j - 1 > idx {
                    assert(le(dv0[idx as int], dv0[j - 1]));
                }
            } else {
                assert(dv[i] == dv0[i - 1] && dv[j] == dv0[j - 1]);
            }
        }
        broadcast use vstd::seq_lib::group_to_multiset_ensures;

        assert(dv.remove(idx as int) =~~= dv0);
        assert(dv[idx as int] == xv);
        assert(dv.remove(idx as int).to_multiset() =~= dv.to_multiset().remove(xv));
        assert(dv.to_multiset().contains(xv));
        assert(dv.to_multiset() =~= dv0.to_multiset().insert(xv));
    }
}

/// Sorts path strings into the path order.
pub fn sort_paths(v: Vec<String>) -> (r: Vec<String>)
    ensures
        sorted_by(r.deep_view(), path_order()),
        r.deep_view().to_multiset() == v.deep_view().to_multiset(),
{
    broadcast use vstd::seq_lib::group_to_multiset_ensures;

    let ghost orig = v.deep_view();
    let mut v = v;
    let mut out: Vec<String> = Vec::new();
    proof {
        assert(out.deep_view() =~~= Seq::<Seq<char>>::empty());
        assert(out.deep_view().to_multiset().add(v.deep_view().to_multiset()) =~= orig.to_multiset());
    }
    while v.len() > 0
        invariant
            sorted_by(out.deep_view(), path_order()),
            out.deep_view().to_multiset().add(v.deep_view().to_multiset()) == orig.to_multiset(),
        decreases v@.len(),
    {
        let ghost vdv0 = v.deep_view();
        let x = match v.pop() {
            Some(x) => x,
            None => {
                proof {
                    assert(false);
                }
                return out;
            },
        };
        proof {
            broadcast use vstd::seq_lib::group_to_multiset_ensures;

            assert(vdv0 =~~= v.deep_view().push(x@));
            assert(v.deep_view().push(x@).to_multiset() =~= v.deep_view().to_multiset().insert(x@));
            assert(vdv0.to_multiset() =~= v.deep_view().to_multiset().insert(x@));
        }
        insert_sorted_path(&mut out, x);
        proof {
            assert(out.deep_view().to_multiset().add(v.deep_view().to_multiset())
                =~= orig.to_multiset());
        }
    }
    proof {
        assert(v.deep_view() =~~= Seq::<Seq<char>>::empty());
        assert(out.deep_view().to_multiset() =~= orig.to_multiset());
    }
    out
}

/// Every non-hidden file under `dir`, recursively: the disk listing, narrowed
/// to regular files, then narrowed by the exact visibility filter — a hidden
/// segment anywhere below `dir` excludes the entry.
pub fn collect_files_recursive(dir: &str) -> (r: Result<Vec<String>, DriftError>)
    ensures
        match r {
            Ok(v) => {
                &&& forall|k: int|
                    0 <= k < v.deep_view().len() ==> !crate::paths::spec_is_hidden(
                        crate::text::spec_after(v.deep_view()[k], dir@.len() as int + 1),
                    )
                &&& exists|listing: Seq<Seq<char>>|
                    #![trigger listing.len()]
                    v.deep_view() == crate::paths::spec_visible_from(
                        listing,
                        dir@.len() as int + 1,
                    )
            },
            Err(e) => e == DriftError::IoError,
        },
{
    let pattern = String::from_str(dir).concat("/**/*");
    let found = match crate::fsio::glob_paths(pattern.as_str()) {
        Err(_) => {
            return Err(DriftError::IoError);
        },
        Ok(v) => v,
    };
    let pat_chars = to_chars(pattern.as_str());
    let pn = pat_chars.len();
    proof {
        reveal_strlit("/**/*");
        assert(pat_chars@.len() == dir@.len() + 5);
    }
    let dir_chars = to_chars(dir);
    let base = dir_chars.len();
    let marks = file_marks(&found);
    let files_only = keep_marked(&found, &marks);
    let v = crate::paths::keep_visible(&files_only, base + 1);
    proof {
        crate::paths::lemma_visible_from_props(files_only.deep_view(), dir@.len() as int + 1);
        assert(exists|listing: Seq<Seq<char>>|
            #![trigger listing.len()]
            v.deep_view() == crate::paths::spec_visible_from(listing, dir@.len() as int + 1));
    }
    Ok(v)
}

/// The digest for a completed directory walk: an empty walk hashes the
/// directory's own path string, so an empty directory still yields a stable
/// digest; a nonempty walk hashes exactly the collected files together.
pub fn hash_collected(dir: &str, files: &Vec<String>) -> (r: Result<String, DriftError>)
    ensures
        files@.len() == 0 ==> ({
            &&& r matches Ok(d) && d@ == spec_sha256_hex(encode_utf8(dir@))
            &&& r matches Ok(d) && spec_is_digest(d@)
        }),
        files@.len() > 0 ==> match r {
            Ok(d) => spec_is_digest(d@) && exists|cs: Seq<Seq<u8>>|
                #![trigger cs.len()]
                cs.len() == files@.len() && d@ == spec_hash_many(
                    Seq::new(files@.len(), |i: int| (files@[i]@, cs[i])),
                ),
            Err(e) => e == DriftError::IoError,
        },
{
    if files.len() == 0 {
        let path_bytes = dir.as_bytes_vec();
        Ok(hash_bytes(&path_bytes))
    } else {
        hash_files(files)
    }
}

/// Hashes a directory: every non-hidden file under it, recursively; an empty
/// directory hashes its own path string, so it still yields a stable digest.
pub fn hash_directory(dir: &str) -> (r: Result<String, DriftError>)
    ensures
        match r {
            Ok(d) => spec_is_digest(d@) && (d@ == spec_sha256_hex(encode_utf8(dir@)) || exists|
                files: Seq<(Seq<char>, Seq<u8>)>,
            | d@ == spec_hash_many(files)),
            Err(e) => e == DriftError::IoError,
        },
{
    let files = match collect_files_recursive(dir) {
        Err(e) => {
            return Err(e);
        },
        Ok(v) => v,
    };
    hash_collected(dir, &files)
}

/// The multi-file digest is invariant to input ordering: any two sequences
/// holding the same files, however ordered, hash alike.
pub proof fn lemma_hash_many_order_invariant(
    a: Seq<(Seq<char>, Seq<u8>)>,
    b: Seq<(Seq<char>, Seq<u8>)>,
)
    requires
        a.to_multiset() == b.to_multiset(),
    ensures
        spec_hash_many(a) == spec_hash_many(b),
{
    lemma_file_order_total();
    a.lemma_sort_by_ensures(file_order());
    b.lemma_sort_by_ensures(file_order());
    lemma_sorted_unique(a.sort_by(file_order()), b.sort_by(file_order()), file_order());
}

} // verus!
