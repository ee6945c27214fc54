//! Decoding compiler-emitted interface artifacts.
//!
//! An artifact is a versioned, tagged binary file mapping a module to its
//! exported symbols. The schema this reader understands:
//!
//! - bytes 0..4: the tag `E` `L` `M` `I`;
//! - bytes 4..6: the schema version, big-endian, which must be 1;
//! - bytes 6..10: the number of symbol records, big-endian;
//! - then each record: a big-endian two-byte name length, the name bytes, a
//!   big-endian two-byte signature length, the signature bytes;
//! - nothing after the last record.
//!
//! Decoding is a pure function of the bytes: any structural violation (short
//! read, bad tag or version, record count not matching the bytes) yields
//! `MalformedInterface`, never a partial result.

use vstd::prelude::*;
use crate::errors::Abort;
use crate::module_name::ModuleName;

verus! {

/// One exported symbol of a module: its name and its type signature, both
/// as the artifact's bytes.
pub struct ExportedSymbol {
    pub name: Vec<u8>,
    pub signature: Vec<u8>,
}

impl DeepView for ExportedSymbol {
    type V = (Seq<u8>, Seq<u8>);

    open spec fn deep_view(&self) -> (Seq<u8>, Seq<u8>) {
        (self.name@, self.signature@)
    }
}

/// The big-endian value of the two bytes at `pos`.
pub open spec fn be16(b: Seq<u8>, pos: int) -> int {
    b[pos] * 256 + b[pos + 1]
}

/// The big-endian value of the four bytes at `pos`.
pub open spec fn be32(b: Seq<u8>, pos: int) -> int {
    ((b[pos] * 256 + b[pos + 1]) * 256 + b[pos + 2]) * 256 + b[pos + 3]
}

/// Whether the artifact starts with the recognized tag and version.
pub open spec fn header_ok(b: Seq<u8>) -> bool {
    &&& b.len() >= 10
    &&& b[0] == 69u8  // 'E'
    &&& b[1] == 76u8  // 'L'
    &&& b[2] == 77u8  // 'M'
    &&& b[3] == 73u8  // 'I'
    &&& be16(b, 4) == 1
}

/// The meaning of the record region: starting at `pos`, exactly `count`
/// records that together reach the end of the bytes, or nothing if the
/// bytes violate the schema.
pub open spec fn records_from(b: Seq<u8>, pos: int, count: int) -> Option<
    Seq<(Seq<u8>, Seq<u8>)>,
>
    decreases count,
{
    if count <= 0 {
        if pos == b.len() {
            Some(Seq::empty())
        } else {
            None
        }
    } else if pos + 2 > b.len() {
        None
    } else {
        let nlen = be16(b, pos);
        if pos + 4 + nlen > b.len() {
            None
        } else {
            let slen = be16(b, pos + 2 + nlen);
            if pos + 4 + nlen + slen > b.len() {
                None
            } else {
                let name = b.subrange(pos + 2, pos + 2 + nlen);
                let sig = b.subrange(pos + 4 + nlen, pos + 4 + nlen + slen);
                match records_from(b, pos + 4 + nlen + slen, count - 1) {
                    Some(rest) => Some(seq![(name, sig)] + rest),
                    None => None,
                }
            }
        }
    }
}

/// The meaning of a whole artifact: its symbol records, or nothing if it is
/// not a well-formed encoding.
pub open spec fn interface_spec(b: Seq<u8>) -> Option<Seq<(Seq<u8>, Seq<u8>)>> {
    if header_ok(b) {
        records_from(b, 10, be32(b, 6))
    } else {
        None
    }
}

/// The bytes of `b` from `from` to `to`, copied out.
fn copy_range(b: &Vec<u8>, from: usize, to: usize) -> (r: Vec<u8>)
    requires
        from <= to <= b.len(),
    ensures
        r@ == b@.subrange(from as int, to as int),
{
    let mut r: Vec<u8> = Vec::new();
    let mut i: usize = from;
    while i < to
        invariant
            from <= i <= to <= b.len(),
            r@ =~= b@.subrange(from as int, i as int),
        decreases to - i,
    {
        r.push(b[i]);
        proof {
            assert(r@ =~= b@.subrange(from as int, i + 1));
        }
        i = i + 1;
    }
    proof {
        assert(r@ =~= b@.subrange(from as int, to as int));
    }
    r
}

/// Decode the record region: `count` records starting at `pos`, reaching
/// exactly the end of the bytes.
fn decode_records(b: &Vec<u8>, pos: usize, count: u32) -> (r: Result<
    Vec<ExportedSymbol>,
    Abort,
>)
    requires
        pos <= b.len(),
    ensures
        match r {
            Ok(syms) => records_from(b@, pos as int, count as int) == Some(syms.deep_view()),
            Err(e) => e is MalformedInterface && records_from(b@, pos as int, count as int)
                is None,
        },
    decreases count,
{
    if count == 0 {
        if pos == b.len() {
            let syms: Vec<ExportedSymbol> = Vec::new();
            proof {
                assert(syms.deep_view() =~= Seq::<(Seq<u8>, Seq<u8>)>::empty());
            }
            return Ok(syms);
        } else {
            return Err(Abort::MalformedInterface);
        }
    }
    if b.len() - pos < 2 {
        return Err(Abort::MalformedInterface);
    }
    let nlen: usize = (b[pos] as usize) * 256 + (b[pos + 1] as usize);
    proof {
        assert(nlen == be16(b@, pos as int));
    }
    if b.len() - pos - 2 < nlen {
        return Err(Abort::MalformedInterface);
    }
    if b.len() - pos - 2 - nlen < 2 {
        return Err(Abort::MalformedInterface);
    }
    let slen: usize = (b[pos + 2 + nlen] as usize) * 256 + (b[pos + 2 + nlen + 1] as usize);
    proof {
        assert(slen == be16(b@, pos + 2 + nlen));
    }
    if b.len() - pos - 4 - nlen < slen {
        return Err(Abort::MalformedInterface);
    }
    let name = copy_range(b, pos + 2, pos + 2 + nlen);
    let sig = copy_range(b, pos + 4 + nlen, pos + 4 + nlen + slen);
    let sym = ExportedSymbol { name, signature: sig };
    let next = pos + 4 + nlen + slen;
    match decode_records(b, next, count - 1) {
        Ok(mut rest) => {
            let ghost symview = sym.deep_view();
            let ghost restview = rest.deep_view();
            let mut syms: Vec<ExportedSymbol> = Vec::new();
            syms.push(sym);
            syms.append(&mut rest);
            proof {
                assert(syms.deep_view() =~= seq![symview] + restview);
            }
            Ok(syms)
        },
        Err(e) => Err(e),
    }
}

/// Decode a whole interface artifact into its exported symbols.
///
/// Succeeds exactly on the well-formed encodings of the schema and returns
/// exactly the records they encode; every other byte string is rejected as
/// `MalformedInterface`, never decoded in part.
pub fn parse_interface(bytes: &Vec<u8>) -> (r: Result<Vec<ExportedSymbol>, Abort>)
    ensures
        match r {
            Ok(syms) => interface_spec(bytes@) == Some(syms.deep_view()),
            Err(e) => e is MalformedInterface && interface_spec(bytes@) is None,
        },
{
    if bytes.len() < 10 {
        return Err(Abort::MalformedInterface);
    }
    if !(bytes[0] == 69 && bytes[1] == 76 && bytes[2] == 77 && bytes[3] == 73) {
        return Err(Abort::MalformedInterface);
    }
    let version: usize = (bytes[4] as usize) * 256 + (bytes[5] as usize);
    if version != 1 {
        proof {
            assert(be16(bytes@, 4) != 1);
        }
        return Err(Abort::MalformedInterface);
    }
    let count: u32 = (((bytes[6] as u32) * 256 + (bytes[7] as u32)) * 256 + (bytes[8] as u32))
        * 256 + (bytes[9] as u32);
    proof {
        assert(count == be32(bytes@, 6));
        assert(header_ok(bytes@));
    }
    decode_records(bytes, 10, count)
}

/// Whether a record fits the schema: both fields fit a two-byte length.
pub open spec fn record_encodable(r: (Seq<u8>, Seq<u8>)) -> bool {
    r.0.len() < 65536 && r.1.len() < 65536
}

/// A length as its two big-endian bytes.
pub open spec fn be16_bytes(n: int) -> Seq<u8> {
    seq![(n / 256) as u8, (n % 256) as u8]
}

/// A count as its four big-endian bytes.
pub open spec fn be32_bytes(n: int) -> Seq<u8> {
    seq![
        (n / 16777216) as u8,
        ((n / 65536) % 256) as u8,
        ((n / 256) % 256) as u8,
        (n % 256) as u8,
    ]
}

/// One record written out in the schema.
pub open spec fn encode_record(r: (Seq<u8>, Seq<u8>)) -> Seq<u8> {
    be16_bytes(r.0.len() as int) + r.0 + be16_bytes(r.1.len() as int) + r.1
}

/// A record list written out in the schema, record after record.
pub open spec fn encode_records(rs: Seq<(Seq<u8>, Seq<u8>)>) -> Seq<u8>
    decreases rs.len(),
{
    if rs.len() == 0 {
        Seq::empty()
    } else {
        encode_record(rs.first()) + encode_records(rs.drop_first())
    }
}

/// A whole artifact written out in the schema: tag, version, count, records.
pub open spec fn encode_interface(rs: Seq<(Seq<u8>, Seq<u8>)>) -> Seq<u8> {
    seq![69u8, 76u8, 77u8, 73u8, 0u8, 1u8] + be32_bytes(rs.len() as int) + encode_records(rs)
}

proof fn lemma_small_div_bound(x: int, d: int, bound: int)
    requires
        0 <= x < d * bound,
        0 < d,
        0 < bound,
    ensures
        0 <= x / d < bound,
{
    vstd::arithmetic::div_mod::lemma_div_pos_is_pos(x, d);
    vstd::arithmetic::div_mod::lemma_fundamental_div_mod(x, d);
    vstd::arithmetic::div_mod::lemma_mod_bound(x, d);
    if x / d >= bound {
        assert(d * (x / d) >= d * bound) by (nonlinear_arith)
            requires
                x / d >= bound,
                d > 0,
        ;
        assert(false);
    }
}

proof fn lemma_records_from_encoding(b: Seq<u8>, pos: int, rs: Seq<(Seq<u8>, Seq<u8>)>)
    requires
        0 <= pos <= b.len(),
        forall|i: int| 0 <= i < rs.len() ==> record_encodable(#[trigger] rs[i]),
        b.skip(pos) =~= encode_records(rs),
    ensures
        records_from(b, pos, rs.len() as int) == Some(rs),
    decreases rs.len(),
{
    if rs.len() == 0 {
        assert(b.skip(pos).len() == 0);
        assert(pos == b.len());
        assert(rs =~= Seq::<(Seq<u8>, Seq<u8>)>::empty());
    } else {
        let r = rs.first();
        assert(record_encodable(r));
        let nlen = r.0.len() as int;
        let slen = r.1.len() as int;
        let enc = encode_record(r);
        let tail = encode_records(rs.drop_first());
        assert(enc.len() == 4 + nlen + slen);
        assert(b.skip(pos).len() == enc.len() + tail.len());
        assert forall|k: int| 0 <= k < enc.len() implies b[pos + k] == enc[k] by {
            assert(b.skip(pos)[k] == b[pos + k]);
            assert((enc + tail)[k] == enc[k]);
        }
        assert(enc[0] == (nlen / 256) as u8) by {
            assert(be16_bytes(nlen)[0] == (nlen / 256) as u8);
        }
        assert(enc[1] == (nlen % 256) as u8) by {
            assert(be16_bytes(nlen)[1] == (nlen % 256) as u8);
        }
        assert(b[pos + 0] == enc[0]);
        assert(b[pos + 1] == enc[1]);
        lemma_small_div_bound(nlen, 256, 256);
        vstd::arithmetic::div_mod::lemma_fundamental_div_mod(nlen, 256);
        vstd::arithmetic::div_mod::lemma_mod_bound(nlen, 256);
        assert(be16(b, pos) == nlen);
        assert(b[pos + (2 + nlen)] == enc[2 + nlen]);
        assert(b[pos + (2 + nlen + 1)] == enc[2 + nlen + 1]);
        assert(enc[2 + nlen] == (slen / 256) as u8) by {
            assert(be16_bytes(slen)[0] == (slen / 256) as u8);
        }
        assert(enc[2 + nlen + 1] == (slen % 256) as u8) by {
            assert(be16_bytes(slen)[1] == (slen % 256) as u8);
        }
        lemma_small_div_bound(slen, 256, 256);
        vstd::arithmetic::div_mod::lemma_fundamental_div_mod(slen, 256);
        vstd::arithmetic::div_mod::lemma_mod_bound(slen, 256);
        assert(be16(b, pos + 2 + nlen) == slen);
        assert(pos + 4 + nlen + slen <= b.len());
        assert(b.subrange(pos + 2, pos + 2 + nlen) =~= r.0) by {
            assert forall|k: int| 0 <= k < nlen implies b[pos + 2 + k] == r.0[k] by {
                assert(enc[2 + k] == r.0[k]);
            }
        }
        assert(b.subrange(pos + 4 + nlen, pos + 4 + nlen + slen) =~= r.1) by {
            assert forall|k: int| 0 <= k < slen implies b[pos + 4 + nlen + k] == r.1[k] by {
                assert(enc[4 + nlen + k] == r.1[k]);
            }
        }
        let next = pos + 4 + nlen + slen;
        assert(b.skip(next) =~= tail) by {
            assert forall|k: int| 0 <= k < tail.len() implies b.skip(next)[k] == tail[k] by {
                assert(b.skip(next)[k] == b[next + k]);
                assert(b.skip(pos)[enc.len() + k] == b[next + k]);
                assert((enc + tail)[enc.len() + k] == tail[k]);
            }
        }
        assert forall|i: int|
            0 <= i < rs.drop_first().len() implies record_encodable(
            #[trigger] rs.drop_first()[i],
        ) by {
            assert(rs.drop_first()[i] == rs[i + 1]);
        }
        lemma_records_from_encoding(b, next, rs.drop_first());
        assert(seq![(r.0, r.1)] + rs.drop_first() =~= rs);
    }
}

/// Decoding inverts encoding: every record list that fits the schema,
/// written out, reads back as exactly itself. Together with the decoder's
/// contract, the well-formed artifacts are exactly the encodings.
pub proof fn lemma_interface_round_trip(rs: Seq<(Seq<u8>, Seq<u8>)>)
    requires
        forall|i: int| 0 <= i < rs.len() ==> record_encodable(#[trigger] rs[i]),
        rs.len() < 0x1_0000_0000,
    ensures
        interface_spec(encode_interface(rs)) == Some(rs),
{
    let b = encode_interface(rs);
    let header = seq![69u8, 76u8, 77u8, 73u8, 0u8, 1u8] + be32_bytes(rs.len() as int);
    assert(header.len() == 10);
    assert(b.len() >= 10);
    assert forall|k: int| 0 <= k < 10 implies b[k] == header[k] by {
        assert((header + encode_records(rs))[k] == header[k]);
    }
    assert(b[0] == 69u8);
    assert(b[1] == 76u8);
    assert(b[2] == 77u8);
    assert(b[3] == 73u8);
    assert(b[4] == 0u8);
    assert(b[5] == 1u8);
    assert(be16(b, 4) == 1);
    assert(header_ok(b));
    let n = rs.len() as int;
    assert(b[6] == (n / 16777216) as u8);
    assert(b[7] == ((n / 65536) % 256) as u8);
    assert(b[8] == ((n / 256) % 256) as u8);
    assert(b[9] == (n % 256) as u8);
    lemma_small_div_bound(n, 16777216, 256);
    assert(be32(b, 6) == n) by {
        vstd::arithmetic::div_mod::lemma_fundamental_div_mod(n, 256);
        vstd::arithmetic::div_mod::lemma_mod_bound(n, 256);
        vstd::arithmetic::div_mod::lemma_div_pos_is_pos(n, 256);
        vstd::arithmetic::div_mod::lemma_fundamental_div_mod(n / 256, 256);
        vstd::arithmetic::div_mod::lemma_mod_bound(n / 256, 256);
        vstd::arithmetic::div_mod::lemma_div_pos_is_pos(n / 256, 256);
        vstd::arithmetic::div_mod::lemma_fundamental_div_mod(n / 65536, 256);
        vstd::arithmetic::div_mod::lemma_mod_bound(n / 65536, 256);
        assert(n / 256 / 256 == n / 65536) by {
            vstd::arithmetic::div_mod::lemma_div_denominator(n, 256, 256);
        }
        assert(n / 65536 / 256 == n / 16777216) by {
            vstd::arithmetic::div_mod::lemma_div_denominator(n, 65536, 256);
        }
    }
    assert(b.skip(10) =~= encode_records(rs)) by {
        assert forall|k: int| 0 <= k < encode_records(rs).len() implies b.skip(10)[k]
            == encode_records(rs)[k] by {
            assert(b.skip(10)[k] == b[10 + k]);
            assert((header + encode_records(rs))[10 + k] == encode_records(rs)[k]);
        }
    }
    lemma_records_from_encoding(b, 10, rs);
}

/// The designated signature of a zero-argument test-suite value: the bytes
/// of `Test.Test`.
pub open spec fn suite_value_signature() -> Seq<u8> {
    seq![84u8, 101u8, 115u8, 116u8, 46u8, 84u8, 101u8, 115u8, 116u8]
}

/// The designated signature of a test-run function: the bytes of
/// `() -> Test.Test`.
pub open spec fn suite_runner_signature() -> Seq<u8> {
    seq![
        40u8,
        41u8,
        32u8,
        45u8,
        62u8,
        32u8,
        84u8,
        101u8,
        115u8,
        116u8,
        46u8,
        84u8,
        101u8,
        115u8,
        116u8,
    ]
}

/// Whether a type signature has the recognized test-suite shape. The shape
/// is a fixed schema contract with the compiler, never guessed: exactly the
/// designated suite-value and test-run signatures are recognized.
pub open spec fn is_test_suite_shape(sig: Seq<u8>) -> bool {
    sig == suite_value_signature() || sig == suite_runner_signature()
}

/// Whether two byte strings are equal, byte for byte.
fn bytes_eq(a: &Vec<u8>, b: &Vec<u8>) -> (r: bool)
    ensures
        r == (a@ == b@),
{
    if a.len() != b.len() {
        return false;
    }
    let n = a.len();
    let mut i: usize = 0;
    while i < n
        invariant
            n == a.len() == b.len(),
            i <= n,
            forall|j: int| 0 <= j < i ==> a@[j] == b@[j],
        decreases n - i,
    {
        if a[i] != b[i] {
            return false;
        }
        i = i + 1;
    }
    proof {
        assert(a@ =~= b@);
    }
    true
}

/// The suite-value signature, as bytes.
fn suite_value_bytes() -> (v: Vec<u8>)
    ensures
        v@ == suite_value_signature(),
{
    let mut v: Vec<u8> = Vec::new();
    v.push(84);
    v.push(101);
    v.push(115);
    v.push(116);
    v.push(46);
    v.push(84);
    v.push(101);
    v.push(115);
    v.push(116);
    proof {
        assert(v@ =~= suite_value_signature());
    }
    v
}

/// The test-run signature, as bytes.
fn suite_runner_bytes() -> (v: Vec<u8>)
    ensures
        v@ == suite_runner_signature(),
{
    let mut v: Vec<u8> = Vec::new();
    v.push(40);
    v.push(41);
    v.push(32);
    v.push(45);
    v.push(62);
    v.push(32);
    v.push(84);
    v.push(101);
    v.push(115);
    v.push(116);
    v.push(46);
    v.push(84);
    v.push(101);
    v.push(115);
    v.push(116);
    proof {
        assert(v@ =~= suite_runner_signature());
    }
    v
}

/// Whether a symbol's signature has the recognized test-suite shape.
pub fn is_test_suite(sig: &Vec<u8>) -> (r: bool)
    ensures
        r == is_test_suite_shape(sig@),
{
    let value_sig = suite_value_bytes();
    let runner_sig = suite_runner_bytes();
    bytes_eq(sig, &value_sig) || bytes_eq(sig, &runner_sig)
}

/// One runnable unit of work: a module together with the name of one of its
/// exported symbols whose signature has the test-suite shape.
pub struct TestIdentity {
    pub module: ModuleName,
    pub symbol: Vec<u8>,
}

impl DeepView for TestIdentity {
    type V = (Seq<Seq<char>>, Seq<u8>);

    open spec fn deep_view(&self) -> (Seq<Seq<char>>, Seq<u8>) {
        (self.module@, self.symbol@)
    }
}

/// The test identities of one module, in artifact order: one per record
/// whose signature has the test-suite shape. Zero is legal: a module with
/// no test-shaped export is simply not a source of runnable tests.
pub open spec fn module_tests(
    module: Seq<Seq<char>>,
    records: Seq<(Seq<u8>, Seq<u8>)>,
) -> Seq<(Seq<Seq<char>>, Seq<u8>)>
    decreases records.len(),
{
    if records.len() == 0 {
        Seq::empty()
    } else {
        let rest = module_tests(module, records.drop_last());
        if is_test_suite_shape(records.last().1) {
            rest.push((module, records.last().0))
        } else {
            rest
        }
    }
}

/// Extract the test identities of one module from its decoded records.
pub fn tests_of_module(module: &ModuleName, syms: &Vec<ExportedSymbol>) -> (ts: Vec<
    TestIdentity,
>)
    ensures
        ts.deep_view() == module_tests(module@, syms.deep_view()),
{
    let mut ts: Vec<TestIdentity> = Vec::new();
    let n = syms.len();
    let mut i: usize = 0;
    while i < n
        invariant
            n == syms.len(),
            i <= n,
            ts.deep_view() =~= module_tests(module@, syms.deep_view().take(i as int)),
        decreases n - i,
    {
        proof {
            assert(syms.deep_view().take(i + 1).drop_last() =~= syms.deep_view().take(
                i as int,
            ));
            assert(syms.deep_view().take(i + 1).last() == syms.deep_view()[i as int]);
            assert(syms.deep_view()[i as int] == syms[i as int].deep_view());
        }
        if is_test_suite(&syms[i].signature) {
            let name = copy_range(&syms[i].name, 0, syms[i].name.len());
            proof {
                assert(name@ =~= syms[i as int].name@);
            }
            let m = ModuleName { segments: copy_segments(&module.segments) };
            let ghost pre = ts.deep_view();
            let t = TestIdentity { module: m, symbol: name };
            let ghost tview = t.deep_view();
            ts.push(t);
            proof {
                assert(ts.deep_view() =~= pre.push(tview));
                assert(ts.deep_view() =~= module_tests(
                    module@,
                    syms.deep_view().take(i + 1),
                ));
            }
        } else {
            proof {
                assert(ts.deep_view() =~= module_tests(
                    module@,
                    syms.deep_view().take(i + 1),
                ));
            }
        }
        i = i + 1;
    }
    proof {
        assert(syms.deep_view().take(n as int) =~= syms.deep_view());
    }
    ts
}

/// A fresh copy of a segment list, segment for segment.
fn copy_segments(segments: &Vec<String>) -> (r: Vec<String>)
    ensures
        r.deep_view() == segments.deep_view(),
{
    let mut r: Vec<String> = Vec::new();
    let n = segments.len();
    let mut i: usize = 0;
    while i < n
        invariant
            n == segments.len(),
            i <= n,
            r.deep_view() =~= segments.deep_view().take(i as int),
        decreases n - i,
    {
        let ghost pre = r.deep_view();
        r.push(segments[i].clone());
        proof {
            assert(r.deep_view() =~= pre.push(segments.deep_view()[i as int]));
            assert(r.deep_view() =~= segments.deep_view().take(i + 1));
        }
        i = i + 1;
    }
    proof {
        assert(r.deep_view() =~= segments.deep_view().take(n as int));
        assert(segments.deep_view().take(n as int) =~= segments.deep_view());
    }
    r
}

/// A fresh copy of a test identity, view for view.
pub fn clone_identity(t: &TestIdentity) -> (r: TestIdentity)
    ensures
        r.deep_view() == t.deep_view(),
{
    let symbol = copy_range(&t.symbol, 0, t.symbol.len());
    proof {
        assert(symbol@ =~= t.symbol@);
    }
    TestIdentity { module: ModuleName { segments: copy_segments(&t.module.segments) }, symbol }
}

/// One module of a run paired with its interface artifact, if the artifact
/// file was present at the module's expected location.
pub struct ModuleInterface {
    pub module: ModuleName,
    pub artifact: Option<Vec<u8>>,
}

impl DeepView for ModuleInterface {
    type V = (Seq<Seq<char>>, Option<Seq<u8>>);

    open spec fn deep_view(&self) -> (Seq<Seq<char>>, Option<Seq<u8>>) {
        (
            self.module@,
            match self.artifact {
                Option::Some(b) => Option::Some(b@),
                Option::None => Option::None,
            },
        )
    }
}

/// Whether a module's artifact is present and well formed.
pub open spec fn module_interface_wf(m: (Seq<Seq<char>>, Option<Seq<u8>>)) -> bool {
    m.1 is Some && interface_spec(m.1->0) is Some
}

/// The test identities a well-formed module contributes.
pub open spec fn module_interface_tests(m: (Seq<Seq<char>>, Option<Seq<u8>>)) -> Seq<
    (Seq<Seq<char>>, Seq<u8>),
> {
    module_tests(m.0, interface_spec(m.1->0)->0)
}

/// The test identities of a run, in module order then artifact order. This
/// is the stable iteration order that worker partitioning relies on.
pub open spec fn discovered_tests(mods: Seq<(Seq<Seq<char>>, Option<Seq<u8>>)>) -> Seq<
    (Seq<Seq<char>>, Seq<u8>),
>
    decreases mods.len(),
{
    if mods.len() == 0 {
        Seq::empty()
    } else {
        discovered_tests(mods.drop_last()) + module_interface_tests(mods.last())
    }
}

/// The discovered identities as a set: everything some well-formed module
/// contributes, with no regard to the order modules are read in.
pub open spec fn discovered_set(mods: Seq<(Seq<Seq<char>>, Option<Seq<u8>>)>) -> Set<
    (Seq<Seq<char>>, Seq<u8>),
> {
    Set::new(
        |t: (Seq<Seq<char>>, Seq<u8>)|
            exists|i: int|
                0 <= i < mods.len() && #[trigger] module_interface_wf(mods[i])
                    && module_interface_tests(mods[i]).contains(t),
    )
}

/// Read every module's artifact and aggregate the test identities, in
/// module order; fail with the first module whose artifact is absent
/// (`MissingInterface`) or not a well-formed encoding (`MalformedInterface`).
pub fn read_test_interfaces(mods: &Vec<ModuleInterface>) -> (r: Result<
    Vec<TestIdentity>,
    Abort,
>)
    ensures
        match r {
            Ok(ts) => (forall|i: int|
                0 <= i < mods.deep_view().len() ==> #[trigger] module_interface_wf(
                    mods.deep_view()[i],
                )) && ts.deep_view() == discovered_tests(mods.deep_view()),
            Err(e) => exists|i: int|
                #![auto]
                0 <= i < mods.deep_view().len() && (forall|j: int|
                    0 <= j < i ==> #[trigger] module_interface_wf(mods.deep_view()[j]))
                    && match e {
                    Abort::MissingInterface => mods.deep_view()[i].1 is None,
                    Abort::MalformedInterface => mods.deep_view()[i].1 is Some
                        && interface_spec(mods.deep_view()[i].1->0) is None,
                    _ => false,
                },
        },
{
    let ghost mv = mods.deep_view();
    let mut ts: Vec<TestIdentity> = Vec::new();
    let n = mods.len();
    let mut i: usize = 0;
    while i < n
        invariant
            n == mods.len(),
            i <= n,
            mv == mods.deep_view(),
            mv.len() == n,
            forall|j: int| 0 <= j < i ==> #[trigger] module_interface_wf(mv[j]),
            ts.deep_view() == discovered_tests(mv.take(i as int)),
        decreases n - i,
    {
        proof {
            assert(mv[i as int] == mods[i as int].deep_view());
        }
        match &mods[i].artifact {
            Option::None => {
                proof {
                    assert(mv[i as int].1 is None);
                }
                return Err(Abort::MissingInterface);
            },
            Option::Some(bytes) => {
                match parse_interface(bytes) {
                    Err(_) => {
                        proof {
                            assert(mv[i as int].1 is Some);
                            assert(interface_spec(mv[i as int].1->0) is None);
                        }
                        return Err(Abort::MalformedInterface);
                    },
                    Ok(syms) => {
                        let mut new_ts = tests_of_module(&mods[i].module, &syms);
                        let ghost pre = ts.deep_view();
                        let ghost newv = new_ts.deep_view();
                        ts.append(&mut new_ts);
                        proof {
                            assert(module_interface_wf(mv[i as int]));
                            assert(ts.deep_view() =~= pre + newv);
                            assert(mv.take(i + 1).drop_last() =~= mv.take(i as int));
                            assert(mv.take(i + 1).last() == mv[i as int]);
                            assert(newv == module_interface_tests(mv[i as int]));
                            assert(ts.deep_view() =~= discovered_tests(mv.take(i + 1)));
                        }
                    },
                }
            },
        }
        i = i + 1;
    }
    proof {
        assert(mv.take(n as int) =~= mv);
    }
    Ok(ts)
}

/// Reading interfaces is free of cross-module state: two runs over the same
/// modules, in any two orders, discover the same set of test identities.
pub proof fn lemma_discovery_order_independent(
    mods1: Seq<(Seq<Seq<char>>, Option<Seq<u8>>)>,
    mods2: Seq<(Seq<Seq<char>>, Option<Seq<u8>>)>,
)
    requires
        mods1.to_multiset() == mods2.to_multiset(),
    ensures
        discovered_set(mods1) == discovered_set(mods2),
{
    broadcast use vstd::seq_lib::group_to_multiset_ensures;

    assert forall|t: (Seq<Seq<char>>, Seq<u8>)|
        discovered_set(mods1).contains(t) implies discovered_set(mods2).contains(t) by {
        let i = choose|i: int|
            0 <= i < mods1.len() && #[trigger] module_interface_wf(mods1[i])
                && module_interface_tests(mods1[i]).contains(t);
        assert(mods1.contains(mods1[i]));
        assert(mods1.to_multiset().count(mods1[i]) > 0);
        assert(mods2.contains(mods1[i]));
        let j = choose|j: int| 0 <= j < mods2.len() && mods2[j] == mods1[i];
        assert(module_interface_wf(mods2[j]));
        assert(module_interface_tests(mods2[j]).contains(t));
    }
    assert forall|t: (Seq<Seq<char>>, Seq<u8>)|
        discovered_set(mods2).contains(t) implies discovered_set(mods1).contains(t) by {
        let i = choose|i: int|
            0 <= i < mods2.len() && #[trigger] module_interface_wf(mods2[i])
                && module_interface_tests(mods2[i]).contains(t);
        assert(mods2.contains(mods2[i]));
        assert(mods2.to_multiset().count(mods2[i]) > 0);
        assert(mods1.contains(mods2[i]));
        let j = choose|j: int| 0 <= j < mods1.len() && mods1[j] == mods2[i];
        assert(module_interface_wf(mods1[j]));
        assert(module_interface_tests(mods1[j]).contains(t));
    }
    assert(discovered_set(mods1) =~= discovered_set(mods2));
}

/// What a run discovers in order is, as a set, exactly the order-free
/// discovered set: the bridge from `read_test_interfaces`'s result to the
/// order-independence law.
pub proof fn lemma_discovered_tests_to_set(mods: Seq<(Seq<Seq<char>>, Option<Seq<u8>>)>)
    requires
        forall|i: int|
            0 <= i < mods.len() ==> #[trigger] module_interface_wf(mods[i]),
    ensures
        discovered_tests(mods).to_set() == discovered_set(mods),
    decreases mods.len(),
{
    if mods.len() == 0 {
        assert(discovered_tests(mods).to_set() =~= discovered_set(mods));
    } else {
        let prefix = mods.drop_last();
        assert forall|i: int|
            0 <= i < prefix.len() implies #[trigger] module_interface_wf(prefix[i]) by {
            assert(prefix[i] == mods[i]);
        }
        lemma_discovered_tests_to_set(prefix);
        let whole = discovered_tests(mods);
        let left = discovered_tests(prefix);
        let right = module_interface_tests(mods.last());
        assert(whole == left + right);
        assert forall|t: (Seq<Seq<char>>, Seq<u8>)|
            whole.to_set().contains(t) implies discovered_set(mods).contains(t) by {
            assert(whole.contains(t));
            let k = choose|k: int| 0 <= k < whole.len() && whole[k] == t;
            if k < left.len() {
                assert(left[k] == t);
                assert(left.contains(t));
                assert(left.to_set().contains(t));
                assert(discovered_set(prefix).contains(t));
                let i = choose|i: int|
                    0 <= i < prefix.len() && #[trigger] module_interface_wf(prefix[i])
                        && module_interface_tests(prefix[i]).contains(t);
                assert(prefix[i] == mods[i]);
                assert(module_interface_wf(mods[i]));
                assert(module_interface_tests(mods[i]).contains(t));
                assert(discovered_set(mods).contains(t));
            } else {
                assert(whole[k] == right[k - left.len()]);
                assert(right[k - left.len()] == t);
                assert(right.contains(t));
                assert(mods.last() == mods[mods.len() - 1]);
                assert(module_interface_wf(mods[mods.len() - 1]));
                assert(module_interface_tests(mods[mods.len() - 1]).contains(t));
                assert(discovered_set(mods).contains(t));
            }
        }
        assert forall|t: (Seq<Seq<char>>, Seq<u8>)|
            discovered_set(mods).contains(t) implies whole.to_set().contains(t) by {
            let i = choose|i: int|
                0 <= i < mods.len() && #[trigger] module_interface_wf(mods[i])
                    && module_interface_tests(mods[i]).contains(t);
            if i < mods.len() - 1 {
                assert(prefix[i] == mods[i]);
                assert(discovered_set(prefix).contains(t));
                assert(left.to_set().contains(t));
                let k = choose|k: int| 0 <= k < left.len() && left[k] == t;
                assert(whole[k] == t);
            } else {
                assert(mods.last() == mods[i]);
                let k = choose|k: int| 0 <= k < right.len() && right[k] == t;
                assert(whole[left.len() + k] == t);
            }
        }
        assert(whole.to_set() =~= discovered_set(mods));
    }
}

} // verus!
