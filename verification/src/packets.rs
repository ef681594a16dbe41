//! Named request and response packets, and the index that places a name in a
//! sparse distributed representation.

use crate::octets::copy_range;
use vstd::hash_map::StringHashMap;
use vstd::prelude::*;
use vstd::string::StringExecFns;
use vstd::string::StringSliceAdditionalSpecFns;
use vstd::utf8::encode_utf8;

verus! {

/// Bit indices of a name, one row per `/`-separated component.
pub type Sdri = Vec<Vec<u16>>;

/// The bytes of one chunk.
pub type ChunkBytes = Vec<u8>;

/// Number of bits in a sparse distributed representation.
pub const SDR_BITS: u16 = 2048;

/// Number of bit indices that one name component contributes.
pub const SDR_ROW_LEN: usize = 8;

/// Largest payload that travels in one response.
pub const SAFE_MTU: usize = 1024;

#[derive(Clone, PartialEq, Debug)]
pub enum Data {
    Manifest { chunk_count: u64 },
    Content { bytes: ChunkBytes },
}

#[derive(Clone, PartialEq, Debug)]
pub enum Packet {
    Request { sdri: Sdri },
    Response { sdri: Sdri, data: Data },
}

pub enum DataView {
    Manifest { chunk_count: u64 },
    Content { bytes: Seq<u8> },
}

pub enum PacketView {
    Request { sdri: Seq<Seq<u16>> },
    Response { sdri: Seq<Seq<u16>>, data: DataView },
}

impl View for Data {
    type V = DataView;

    open spec fn view(&self) -> DataView {
        match self {
            Data::Manifest { chunk_count } => DataView::Manifest { chunk_count: *chunk_count },
            Data::Content { bytes } => DataView::Content { bytes: bytes@ },
        }
    }
}

impl View for Packet {
    type V = PacketView;

    open spec fn view(&self) -> PacketView {
        match self {
            Packet::Request { sdri } => PacketView::Request { sdri: sdri.deep_view() },
            Packet::Response { sdri, data } => PacketView::Response {
                sdri: sdri.deep_view(),
                data: data@,
            },
        }
    }
}

impl PacketView {
    /// The index rows that the packet carries.
    pub open spec fn sdri(self) -> Seq<Seq<u16>> {
        match self {
            PacketView::Request { sdri } => sdri,
            PacketView::Response { sdri, .. } => sdri,
        }
    }
}

/// The SHA3-512 digest of `data`, as the `sha3` crate computes it.
pub uninterp spec fn sha3_512(data: Seq<u8>) -> Seq<u8>;

/// Calls `sha3::Sha3_512::digest` on `data`. The contract gives the 64 bytes
/// that come back the name `sha3_512(data)`; nothing else is claimed of them.
#[verifier::external_body]
pub(crate) fn sha3_512_digest(data: &[u8]) -> (out: [u8; 64])
    ensures
        out@ == sha3_512(data@),
{
    let digest = <sha3::Sha3_512 as sha3::Digest>::digest(data);
    let mut out = [0u8; 64];
    out.copy_from_slice(digest.as_slice());
    out
}

/// The `i`-th 16-bit lane of a digest: bytes `2i` and `2i + 1`, little-endian.
pub open spec fn lane(digest: Seq<u8>, i: int) -> int {
    digest[2 * i] as int + 256 * (digest[2 * i + 1] as int)
}

/// The bit indices of one name component.
pub open spec fn sdr_row(component: Seq<u8>) -> Seq<u16> {
    Seq::new(SDR_ROW_LEN as nat, |i: int| (lane(sha3_512(component), i) % (SDR_BITS as int)) as u16)
}

/// The components of a name: the byte runs between `/` separators. A name
/// without a separator is one component; an empty name is one empty component.
pub open spec fn components(name: Seq<u8>) -> Seq<Seq<u8>>
    decreases name.len(),
{
    if name.len() == 0 {
        seq![Seq::<u8>::empty()]
    } else {
        let before = components(name.drop_last());
        if name.last() == 0x2f {
            before.push(Seq::<u8>::empty())
        } else {
            before.drop_last().push(before.last().push(name.last()))
        }
    }
}

/// The index of a name given as UTF-8 bytes.
pub open spec fn sdr_index_of_bytes(name: Seq<u8>) -> Seq<Seq<u16>> {
    components(name).map_values(|c: Seq<u8>| sdr_row(c))
}

/// The index of a name.
pub open spec fn sdr_index_spec(name: Seq<char>) -> Seq<Seq<u16>> {
    sdr_index_of_bytes(encode_utf8(name))
}

/// Whether every bit index of `sdri` addresses a bit of the representation.
pub open spec fn sdri_in_range(sdri: Seq<Seq<u16>>) -> bool {
    forall|r: int, c: int|
        0 <= r < sdri.len() && 0 <= c < sdri[r].len() ==> (#[trigger] sdri[r][c]) < SDR_BITS
}

/// Every index that `sdr_index_spec` yields addresses a bit of the representation.
pub proof fn lemma_sdr_index_in_range(name: Seq<u8>)
    ensures
        sdri_in_range(sdr_index_of_bytes(name)),
{
    let sdri = sdr_index_of_bytes(name);
    assert forall|r: int, c: int| 0 <= r < sdri.len() && 0 <= c < sdri[r].len() implies (
    #[trigger] sdri[r][c]) < SDR_BITS by {
        let comp = components(name)[r];
        assert(sdri[r] == sdr_row(comp));
        let l = lane(sha3_512(comp), c);
        assert(0 <= l % (SDR_BITS as int) < SDR_BITS as int);
    }
}

fn row_of(component: &Vec<u8>) -> (row: Vec<u16>)
    ensures
        row@ == sdr_row(component@),
{
    let digest = sha3_512_digest(component.as_slice());
    let mut row: Vec<u16> = Vec::new();
    let mut i: usize = 0;
    while i < SDR_ROW_LEN
        invariant
            i <= SDR_ROW_LEN,
            digest@ == sha3_512(component@),
            row@.len() == i,
            forall|j: int| 0 <= j < i ==> row@[j] == sdr_row(component@)[j],
        decreases SDR_ROW_LEN - i,
    {
        let lo: u16 = digest[2 * i] as u16;
        let hi: u16 = digest[2 * i + 1] as u16;
        let whole: u16 = lo + hi * 256;
        assert(whole as int == lane(digest@, i as int));
        row.push(whole % SDR_BITS);
        i += 1;
    }
    assert(row@ =~= sdr_row(component@));
    row
}

/// Computes the index of `name`: one row of `SDR_ROW_LEN` bit indices for each
/// `/`-separated component, every index below `SDR_BITS`.
pub fn generate_sdr_index(name: String) -> (sdri: Sdri)
    ensures
        sdri.deep_view() == sdr_index_spec(name@),
        sdri_in_range(sdri.deep_view()),
{
    let text = name.as_str();
    let bytes = text.as_bytes();
    let ghost all = bytes@;
    let mut rows: Vec<Vec<u16>> = Vec::new();
    let mut current: Vec<u8> = Vec::new();
    let mut i: usize = 0;
    while i < bytes.len()
        invariant
            i <= bytes@.len(),
            all == bytes@,
            rows@.len() + 1 == components(all.take(i as int)).len(),
            current@ == components(all.take(i as int)).last(),
            forall|r: int|
                0 <= r < rows@.len() ==> (#[trigger] rows@[r])@ == sdr_row(
                    components(all.take(i as int))[r],
                ),
        decreases bytes@.len() - i,
    {
        let b = bytes[i];
        proof {
            assert(all.take(i + 1).drop_last() =~= all.take(i as int));
            assert(all.take(i + 1).last() == b);
        }
        if b == 0x2f {
            let row = row_of(&current);
            rows.push(row);
            current = Vec::new();
        } else {
            current.push(b);
        }
        i += 1;
    }
    let row = row_of(&current);
    rows.push(row);
    proof {
        assert(all.take(bytes@.len() as int) =~= all);
        assert(all == encode_utf8(name@));
        let expect = sdr_index_spec(name@);
        assert(rows.deep_view().len() == expect.len());
        assert forall|r: int| 0 <= r < expect.len() implies rows.deep_view()[r] == expect[r] by {
            assert(rows.deep_view()[r] == rows@[r]@);
        }
        assert(rows.deep_view() =~= expect);
        lemma_sdr_index_in_range(encode_utf8(name@));
    }
    rows
}

/// A request for `name`.
pub fn request(name: String) -> (packet: Packet)
    ensures
        packet@ == (PacketView::Request { sdri: sdr_index_spec(name@) }),
        sdri_in_range(packet@.sdri()),
{
    Packet::Request { sdri: generate_sdr_index(name) }
}

/// A response that answers a request for `name` with `data`.
pub fn response(name: String, data: Data) -> (packet: Packet)
    ensures
        packet@ == (PacketView::Response { sdri: sdr_index_spec(name@), data: data@ }),
        sdri_in_range(packet@.sdri()),
{
    Packet::Response { sdri: generate_sdr_index(name), data }
}

/// The character of a decimal digit.
pub open spec fn digit_char(d: nat) -> char {
    if d == 0 {
        '0'
    } else if d == 1 {
        '1'
    } else if d == 2 {
        '2'
    } else if d == 3 {
        '3'
    } else if d == 4 {
        '4'
    } else if d == 5 {
        '5'
    } else if d == 6 {
        '6'
    } else if d == 7 {
        '7'
    } else if d == 8 {
        '8'
    } else {
        '9'
    }
}

/// The digit that a character stands for; 0 for any other character.
pub open spec fn digit_value(c: char) -> nat {
    if c == '1' {
        1
    } else if c == '2' {
        2
    } else if c == '3' {
        3
    } else if c == '4' {
        4
    } else if c == '5' {
        5
    } else if c == '6' {
        6
    } else if c == '7' {
        7
    } else if c == '8' {
        8
    } else if c == '9' {
        9
    } else {
        0
    }
}

/// `n` written in decimal, without leading zeros.
pub open spec fn decimal(n: nat) -> Seq<char>
    decreases n,
{
    if n < 10 {
        seq![digit_char(n)]
    } else {
        decimal(n / 10).push(digit_char(n % 10))
    }
}

/// The number that a string of decimal digits stands for.
pub open spec fn decimal_value(s: Seq<char>) -> nat
    decreases s.len(),
{
    if s.len() == 0 {
        0
    } else {
        decimal_value(s.drop_last()) * 10 + digit_value(s.last())
    }
}

/// Reading back what `decimal` wrote gives the number again, so two numbers
/// never share a decimal form.
pub proof fn lemma_decimal_value(n: nat)
    ensures
        decimal_value(decimal(n)) == n,
    decreases n,
{
    if n < 10 {
        let s = decimal(n);
        assert(s.drop_last() =~= Seq::<char>::empty());
        assert(decimal_value(s.drop_last()) == 0);
        assert(s.last() == digit_char(n));
    } else {
        lemma_decimal_value(n / 10);
        let s = decimal(n);
        assert(s.drop_last() =~= decimal(n / 10));
        assert(s.last() == digit_char(n % 10));
    }
}

/// Number of chunks that `len` bytes are cut into.
pub open spec fn chunk_total(len: nat) -> nat {
    ((len + SAFE_MTU as nat - 1) / (SAFE_MTU as int)) as nat
}

/// The name under which chunk `i` of `name` is stored.
pub open spec fn chunk_name(name: Seq<char>, i: nat) -> Seq<char> {
    name.push('-') + decimal(i)
}

/// The bytes of chunk `i` of `data`.
pub open spec fn chunk_bytes(data: Seq<u8>, i: nat) -> Seq<u8> {
    let from = i * SAFE_MTU as nat;
    let to = if from + SAFE_MTU as nat <= data.len() {
        from + SAFE_MTU as nat
    } else {
        data.len()
    };
    data.subrange(from as int, to as int)
}

/// Chunk names differ from the plain name and from each other.
pub proof fn lemma_chunk_names_distinct(name: Seq<char>, i: nat, j: nat)
    ensures
        chunk_name(name, i) != name,
        chunk_name(name, i) == chunk_name(name, j) ==> i == j,
{
    let a = chunk_name(name, i);
    let b = chunk_name(name, j);
    assert(a.len() > name.len());
    if a == b {
        let k = name.len() as int + 1;
        assert(a.skip(k) =~= decimal(i));
        assert(b.skip(k) =~= decimal(j));
        lemma_decimal_value(i);
        lemma_decimal_value(j);
    }
}

fn digit_str(d: usize) -> (s: &'static str)
    requires
        d < 10,
    ensures
        s@ == seq![digit_char(d as nat)],
{
    proof {
        reveal_strlit("0");
        reveal_strlit("1");
        reveal_strlit("2");
        reveal_strlit("3");
        reveal_strlit("4");
        reveal_strlit("5");
        reveal_strlit("6");
        reveal_strlit("7");
        reveal_strlit("8");
        reveal_strlit("9");
    }
    let s = if d == 0 {
        "0"
    } else if d == 1 {
        "1"
    } else if d == 2 {
        "2"
    } else if d == 3 {
        "3"
    } else if d == 4 {
        "4"
    } else if d == 5 {
        "5"
    } else if d == 6 {
        "6"
    } else if d == 7 {
        "7"
    } else if d == 8 {
        "8"
    } else {
        "9"
    };
    assert(s@ =~= seq![digit_char(d as nat)]);
    s
}

fn push_decimal(s: &mut String, n: usize)
    ensures
        final(s)@ == old(s)@ + decimal(n as nat),
    decreases n,
{
    if n >= 10 {
        push_decimal(s, n / 10);
    }
    s.append(digit_str(n % 10));
    proof {
        if n >= 10 {
            assert(s@ =~= old(s)@ + decimal(n as nat));
        } else {
            assert(s@ =~= old(s)@ + decimal(n as nat));
        }
    }
}

fn make_chunk_name(name: &String, i: usize) -> (out: String)
    ensures
        out@ == chunk_name(name@, i as nat),
{
    let mut out = name.clone();
    proof {
        reveal_strlit("-");
    }
    out.append("-");
    assert(out@ =~= name@.push('-'));
    push_decimal(&mut out, i);
    out
}

/// Builds the responses that answer for `data` under `name`.
///
/// Up to `SAFE_MTU` bytes travel as one content response under `name`. A
/// longer payload is cut into chunks of `SAFE_MTU` bytes, the last one
/// shorter where the length is no multiple: `name` then holds a manifest whose
/// `chunk_count` is the number of the last chunk, and chunk `i` is stored
/// under `name-i`.
pub fn mk_response(name: String, data: ChunkBytes) -> (out: StringHashMap<Packet>)
    ensures
        data@.len() <= SAFE_MTU ==> {
            &&& out@.dom() =~= set![name@]
            &&& out@[name@]@ == (PacketView::Response {
                sdri: sdr_index_spec(name@),
                data: DataView::Content { bytes: data@ },
            })
        },
        data@.len() > SAFE_MTU ==> {
            &&& forall|k: Seq<char>|
                out@.dom().contains(k) <==> (k == name@ || exists|i: nat|
                    i < chunk_total(data@.len()) && k == #[trigger] chunk_name(name@, i))
            &&& out@[name@]@ == (PacketView::Response {
                sdri: sdr_index_spec(name@),
                data: DataView::Manifest {
                    chunk_count: (chunk_total(data@.len()) - 1) as u64,
                },
            })
            &&& forall|i: nat|
                i < chunk_total(data@.len()) ==> (#[trigger] out@[chunk_name(name@, i)])@ == (
                PacketView::Response {
                    sdri: sdr_index_spec(chunk_name(name@, i)),
                    data: DataView::Content { bytes: chunk_bytes(data@, i) },
                })
        },
        forall|k: Seq<char>| out@.dom().contains(k) ==> sdri_in_range(#[trigger] out@[k]@.sdri()),
{
    let mut out: StringHashMap<Packet> = StringHashMap::new();
    let len = data.len();
    if len <= SAFE_MTU {
        let packet = response(name.clone(), Data::Content { bytes: data });
        out.insert(name, packet);
        return out;
    }
    let total: usize = (len - 1) / SAFE_MTU + 1;
    assert(total as nat == chunk_total(len as nat));
    let manifest = Data::Manifest { chunk_count: (total - 1) as u64 };
    let first = response(name.clone(), manifest);
    out.insert(name.clone(), first);
    let mut count: usize = 0;
    while count < total
        invariant
            count <= total,
            len == data@.len(),
            len > SAFE_MTU,
            total as nat == chunk_total(len as nat),
            forall|k: Seq<char>|
                out@.dom().contains(k) <==> (k == name@ || exists|i: nat|
                    i < count && k == #[trigger] chunk_name(name@, i)),
            out@[name@]@ == (PacketView::Response {
                sdri: sdr_index_spec(name@),
                data: DataView::Manifest { chunk_count: (total - 1) as u64 },
            }),
            forall|i: nat|
                i < count ==> (#[trigger] out@[chunk_name(name@, i)])@ == (PacketView::Response {
                    sdri: sdr_index_spec(chunk_name(name@, i)),
                    data: DataView::Content { bytes: chunk_bytes(data@, i) },
                }),
            forall|k: Seq<char>|
                out@.dom().contains(k) ==> sdri_in_range(#[trigger] out@[k]@.sdri()),
        decreases total - count,
    {
        let from: usize = count * SAFE_MTU;
        let to: usize = if len - from >= SAFE_MTU {
            from + SAFE_MTU
        } else {
            len
        };
        let bytes = copy_range(&data, from, to);
        assert(bytes@ == chunk_bytes(data@, count as nat));
        let chunk = make_chunk_name(&name, count);
        let packet = response(chunk.clone(), Data::Content { bytes });
        let ghost before = out@;
        out.insert(chunk, packet);
        proof {
            let fresh = chunk_name(name@, count as nat);
            lemma_chunk_names_distinct(name@, count as nat, 0);
            assert forall|i: nat| i < count + 1 implies (#[trigger] out@[chunk_name(name@, i)])@
                == (PacketView::Response {
                sdri: sdr_index_spec(chunk_name(name@, i)),
                data: DataView::Content { bytes: chunk_bytes(data@, i) },
            }) by {
                lemma_chunk_names_distinct(name@, i, count as nat);
                if i < count {
                    assert(out@[chunk_name(name@, i)] == before[chunk_name(name@, i)]);
                }
            }
            assert forall|k: Seq<char>|
                out@.dom().contains(k) <==> (k == name@ || exists|i: nat|
                    i < count + 1 && k == #[trigger] chunk_name(name@, i)) by {
                if k == fresh {
                    assert(count < count + 1 && k == chunk_name(name@, count as nat));
                }
                if before.dom().contains(k) && k != name@ {
                    let i = choose|i: nat| i < count && k == #[trigger] chunk_name(name@, i);
                    assert(i < count + 1 && k == chunk_name(name@, i));
                }
            }
        }
        count += 1;
    }
    out
}

} // verus!
