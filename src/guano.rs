//! GUANO metadata: `key: value` lines stored in a "guan" RIFF subchunk of a
//! WAV file.
use vstd::prelude::*;
use vstd::std_specs::iter::IteratorSpec;
use vstd::string::StringSliceAdditionalSpecFns;
use vstd::utf8::{decode_utf8, valid_utf8};

verus! {

/// Unicode White_Space characters, the ones `char::is_whitespace` accepts.
pub open spec fn is_white(c: char) -> bool {
    ||| ('\u{9}' <= c && c <= '\u{d}')
    ||| c == ' '
    ||| c == '\u{85}'
    ||| c == '\u{a0}'
    ||| c == '\u{1680}'
    ||| ('\u{2000}' <= c && c <= '\u{200a}')
    ||| c == '\u{2028}'
    ||| c == '\u{2029}'
    ||| c == '\u{202f}'
    ||| c == '\u{205f}'
    ||| c == '\u{3000}'
}

/// Whether `c` is Unicode white space.
pub fn is_white_space(c: char) -> (r: bool)
    ensures
        r == is_white(c),
{
    ('\u{9}' <= c && c <= '\u{d}') || c == ' ' || c == '\u{85}' || c == '\u{a0}' || c == '\u{1680}'
        || ('\u{2000}' <= c && c <= '\u{200a}') || c == '\u{2028}' || c == '\u{2029}' || c
        == '\u{202f}' || c == '\u{205f}' || c == '\u{3000}'
}

/// `s` without its leading white space.
pub open spec fn trim_front(s: Seq<char>) -> Seq<char>
    decreases s.len(),
{
    if s.len() > 0 && is_white(s[0]) {
        trim_front(s.drop_first())
    } else {
        s
    }
}

/// `s` without its trailing white space.
pub open spec fn trim_back(s: Seq<char>) -> Seq<char>
    decreases s.len(),
{
    if s.len() > 0 && is_white(s.last()) {
        trim_back(s.drop_last())
    } else {
        s
    }
}

/// `s` without leading and trailing white space.
pub open spec fn trim(s: Seq<char>) -> Seq<char> {
    trim_back(trim_front(s))
}

/// Index of the first `c` in `s`.
pub open spec fn index_of(s: Seq<char>, c: char) -> Option<int>
    decreases s.len(),
{
    if s.len() == 0 {
        None
    } else if s[0] == c {
        Some(0)
    } else {
        match index_of(s.drop_first(), c) {
            Some(i) => Some(i + 1),
            None => None,
        }
    }
}

/// The field a line gives: after trimming, the text before the first `:`
/// and the text after it, each trimmed. A line without `:` gives none.
pub open spec fn line_field(line: Seq<char>) -> Seq<(Seq<char>, Seq<char>)> {
    let t = trim(line);
    match index_of(t, ':') {
        Some(j) => seq![(trim(t.take(j)), trim(t.skip(j + 1)))],
        None => Seq::empty(),
    }
}

/// Fields of GUANO text: one per line (lines end at `\n`) that holds a `:`.
pub open spec fn guano_fields(s: Seq<char>) -> Seq<(Seq<char>, Seq<char>)>
    decreases s.len(),
{
    match index_of(s, '\n') {
        Some(i) => if 0 <= i < s.len() {
            line_field(s.take(i)) + guano_fields(s.skip(i + 1))
        } else {
            Seq::empty()
        },
        None => line_field(s),
    }
}

/// GUANO text of `fields`: one `key: value` line each, every line ending in `\n`.
pub open spec fn guano_text(fields: Seq<(Seq<char>, Seq<char>)>) -> Seq<char>
    decreases fields.len(),
{
    if fields.len() == 0 {
        Seq::empty()
    } else {
        guano_text(fields.drop_last()) + fields.last().0 + seq![':', ' '] + fields.last().1
            + seq!['\n']
    }
}

/// The (key, value) text pairs of a field list.
pub open spec fn fields_view(fields: Seq<(String, String)>) -> Seq<(Seq<char>, Seq<char>)> {
    fields.map_values(|p: (String, String)| (p.0@, p.1@))
}

/// Relies on `String::push_str`: appends the characters of `t` to `s`.
#[verifier::external_body]
fn push_text(s: &mut String, t: &str)
    ensures
        final(s)@ == old(s)@ + t@,
{
    s.push_str(t);
}

/// Relies on `String::push`: appends `c` to `s`.
#[verifier::external_body]
fn push_char(s: &mut String, c: char)
    ensures
        final(s)@ == old(s)@.push(c),
{
    s.push(c);
}

/// The characters of `s` in order.
fn chars_of(s: &str) -> (r: Vec<char>)
    ensures
        r@ == s@,
{
    broadcast use vstd::string::group_string_axioms;

    let mut it = s.chars();
    let mut out: Vec<char> = Vec::new();
    loop
        invariant
            out@ + it.remaining() == s@,
            it.decrease() is Some,
        ensures
            out@ == s@,
        decreases it.decrease()->0,
    {
        match it.next() {
            Some(c) => {
                out.push(c);
                proof {
                    assert(out@ + it.remaining() =~= s@);
                }
            },
            None => {
                proof {
                    assert(out@ =~= s@);
                }
                break;
            },
        }
    }
    out
}

/// Relies on `std::str::from_utf8`: `Some` exactly for valid UTF-8, holding
/// the characters the bytes encode.
#[verifier::external_body]
fn str_from_utf8(b: &[u8]) -> (r: Option<&str>)
    ensures
        r is Some <==> valid_utf8(b@),
        r is Some ==> r->0@ == decode_utf8(b@),
{
    std::str::from_utf8(b).ok()
}

/// A list of GUANO fields, in order.
#[derive(Clone, Debug)]
pub struct GuanoMetadata {
    pub fields: Vec<(String, String)>,
}

impl GuanoMetadata {
    /// Fields as text pairs.
    pub open spec fn view_fields(&self) -> Seq<(Seq<char>, Seq<char>)> {
        fields_view(self.fields@)
    }

    /// No fields.
    pub fn new() -> (r: Self)
        ensures
            r.view_fields() == Seq::<(Seq<char>, Seq<char>)>::empty(),
    {
        let r = GuanoMetadata { fields: Vec::new() };
        proof {
            assert(r.view_fields() =~= Seq::<(Seq<char>, Seq<char>)>::empty());
        }
        r
    }

    /// Appends the field `key: value`; returns the metadata for chaining.
    pub fn add(&mut self, key: &str, value: &str) -> (r: &mut Self)
        ensures
            r.view_fields() == old(self).view_fields().push((key@, value@)),
            *final(self) == *final(r),
    {
        self.fields.push((key.to_owned(), value.to_owned()));
        proof {
            assert(fields_view(self.fields@) =~= fields_view(old(self).fields@).push((key@, value@)));
        }
        self
    }

    /// The GUANO text of the fields.
    pub fn to_text(&self) -> (r: String)
        ensures
            r@ == guano_text(self.view_fields()),
    {
        build_guano_text(self.fields.as_slice())
    }
}

impl Default for GuanoMetadata {
    /// No fields.
    fn default() -> (r: Self)
        ensures
            r.view_fields() == Seq::<(Seq<char>, Seq<char>)>::empty(),
    {
        GuanoMetadata::new()
    }
}

/// GUANO text of `fields`: `key: value` and a newline for each field.
pub fn build_guano_text(fields: &[(String, String)]) -> (r: String)
    ensures
        r@ == guano_text(fields_view(fields@)),
{
    let mut text = String::new();
    let mut i: usize = 0;
    while i < fields.len()
        invariant
            i <= fields@.len(),
            text@ == guano_text(fields_view(fields@.take(i as int))),
        decreases fields@.len() - i,
    {
        let ghost before = text@;
        push_text(&mut text, fields[i].0.as_str());
        push_text(&mut text, ": ");
        push_text(&mut text, fields[i].1.as_str());
        push_char(&mut text, '\n');
        proof {
            reveal_strlit(": ");
            let f = fields_view(fields@.take(i + 1));
            assert(f.drop_last() =~= fields_view(fields@.take(i as int)));
            assert(f.last() == (fields@[i as int].0@, fields@[i as int].1@));
            assert(text@ =~= guano_text(f));
        }
        i = i + 1;
    }
    proof {
        assert(fields@.take(i as int) =~= fields@);
    }
    text
}

/// `index_of` finds the first occurrence, and none when there is none.
pub proof fn lemma_index_of_first(s: Seq<char>, c: char, k: int)
    requires
        0 <= k <= s.len(),
        forall|i: int| 0 <= i < k ==> s[i] != c,
    ensures
        k < s.len() && s[k] == c ==> index_of(s, c) == Some(k),
        k == s.len() ==> index_of(s, c) is None,
    decreases k,
{
    if k > 0 {
        lemma_index_of_first(s.drop_first(), c, k - 1);
    }
}

/// First index in `lo..hi` holding `c`, or `hi` when there is none.
fn find_char(v: &Vec<char>, lo: usize, hi: usize, c: char) -> (r: usize)
    requires
        lo <= hi <= v@.len(),
    ensures
        lo <= r <= hi,
        r < hi ==> index_of(v@.subrange(lo as int, hi as int), c) == Some(r - lo),
        r == hi ==> index_of(v@.subrange(lo as int, hi as int), c) is None,
{
    let mut i: usize = lo;
    while i < hi
        invariant
            lo <= i <= hi,
            hi <= v@.len(),
            forall|j: int| lo <= j < i ==> v@[j] != c,
        ensures
            lo <= i <= hi,
            forall|j: int| lo <= j < i ==> v@[j] != c,
            i < hi ==> v@[i as int] == c,
        decreases hi - i,
    {
        if v[i] == c {
            break;
        }
        i = i + 1;
    }
    proof {
        let sub = v@.subrange(lo as int, hi as int);
        assert forall|j: int| 0 <= j < i - lo implies sub[j] != c by {
            assert(sub[j] == v@[lo + j]);
        }
        if i < hi {
            assert(sub[i - lo] == c);
        }
        lemma_index_of_first(sub, c, i - lo);
    }
    i
}

/// Bounds of `v[lo..hi]` with leading and trailing white space left out.
fn trim_bounds(v: &Vec<char>, lo: usize, hi: usize) -> (r: (usize, usize))
    requires
        lo <= hi <= v@.len(),
    ensures
        lo <= r.0 <= r.1 <= hi,
        v@.subrange(r.0 as int, r.1 as int) == trim(v@.subrange(lo as int, hi as int)),
{
    let mut a: usize = lo;
    while a < hi && is_white_space(v[a])
        invariant
            lo <= a <= hi,
            hi <= v@.len(),
            trim_front(v@.subrange(lo as int, hi as int)) == trim_front(
                v@.subrange(a as int, hi as int),
            ),
        decreases hi - a,
    {
        proof {
            assert(v@.subrange(a as int, hi as int).drop_first() =~= v@.subrange(a + 1, hi as int));
        }
        a = a + 1;
    }
    let mut b: usize = hi;
    while b > a && is_white_space(v[b - 1])
        invariant
            lo <= a <= b <= hi,
            hi <= v@.len(),
            trim_front(v@.subrange(lo as int, hi as int)) == v@.subrange(a as int, hi as int),
            trim_back(v@.subrange(a as int, hi as int)) == trim_back(v@.subrange(a as int, b as int)),
        decreases b - a,
    {
        proof {
            assert(v@.subrange(a as int, b as int).drop_last() =~= v@.subrange(a as int, b - 1));
        }
        b = b - 1;
    }
    (a, b)
}

/// The characters `v[lo..hi]` as a string.
fn text_of(v: &Vec<char>, lo: usize, hi: usize) -> (r: String)
    requires
        lo <= hi <= v@.len(),
    ensures
        r@ == v@.subrange(lo as int, hi as int),
{
    let mut out = String::new();
    let mut i: usize = lo;
    while i < hi
        invariant
            lo <= i <= hi,
            hi <= v@.len(),
            out@ == v@.subrange(lo as int, i as int),
        decreases hi - i,
    {
        push_char(&mut out, v[i]);
        proof {
            assert(out@ =~= v@.subrange(lo as int, i + 1));
        }
        i = i + 1;
    }
    out
}

/// Appends the field of line `v[lo..hi]`, if it has one.
fn push_line_field(v: &Vec<char>, lo: usize, hi: usize, fields: &mut Vec<(String, String)>)
    requires
        lo <= hi <= v@.len(),
    ensures
        fields_view(final(fields)@) == fields_view(old(fields)@) + line_field(
            v@.subrange(lo as int, hi as int),
        ),
{
    let (a, b) = trim_bounds(v, lo, hi);
    let ghost t = v@.subrange(a as int, b as int);
    let j = find_char(v, a, b, ':');
    if j < b {
        let (ka, kb) = trim_bounds(v, a, j);
        let (va, vb) = trim_bounds(v, j + 1, b);
        let key = text_of(v, ka, kb);
        let value = text_of(v, va, vb);
        fields.push((key, value));
        proof {
            assert(t.take(j - a) =~= v@.subrange(a as int, j as int));
            assert(t.skip(j - a + 1) =~= v@.subrange(j + 1, b as int));
            assert(fields_view(fields@) =~= fields_view(old(fields)@) + line_field(
                v@.subrange(lo as int, hi as int),
            ));
        }
    } else {
        proof {
            assert(fields_view(fields@) =~= fields_view(old(fields)@) + line_field(
                v@.subrange(lo as int, hi as int),
            ));
        }
    }
}

/// Parses GUANO text: for every line holding a `:`, the trimmed text
/// before the first `:` is the key and the trimmed text after it the value.
pub fn parse_guano_text(text: &str) -> (r: GuanoMetadata)
    ensures
        r.view_fields() == guano_fields(text@),
{
    let v = chars_of(text);
    let mut fields: Vec<(String, String)> = Vec::new();
    let mut pos: usize = 0;
    proof {
        assert(v@.skip(0) =~= v@);
        assert(fields_view(fields@) =~= Seq::<(Seq<char>, Seq<char>)>::empty());
    }
    while pos < v.len()
        invariant
            pos <= v@.len(),
            v@ == text@,
            fields_view(fields@) + guano_fields(v@.skip(pos as int)) == guano_fields(v@),
        decreases v@.len() - pos,
    {
        let ghost rest = v@.skip(pos as int);
        let ghost before = fields_view(fields@);
        let e = find_char(&v, pos, v.len(), '\n');
        push_line_field(&v, pos, e, &mut fields);
        proof {
            assert(v@.subrange(pos as int, v@.len() as int) =~= rest);
        }
        if e < v.len() {
            proof {
                assert(rest.take(e - pos) =~= v@.subrange(pos as int, e as int));
                assert(rest.skip(e - pos + 1) =~= v@.skip(e + 1));
                assert(fields_view(fields@) + guano_fields(v@.skip(e + 1)) =~= before + guano_fields(
                    rest,
                ));
            }
            pos = e + 1;
        } else {
            proof {
                let empty = Seq::<char>::empty();
                assert(v@.skip(v@.len() as int) =~= empty);
                assert(trim_front(empty) == empty);
                assert(trim_back(empty) == empty);
                assert(guano_fields(empty) =~= Seq::<(Seq<char>, Seq<char>)>::empty());
                assert(fields_view(fields@) + guano_fields(empty) =~= before + guano_fields(rest));
            }
            pos = v.len();
        }
    }
    proof {
        let empty = Seq::<char>::empty();
        assert(v@.skip(pos as int) =~= empty);
        assert(trim_front(empty) == empty);
        assert(trim_back(empty) == empty);
        assert(guano_fields(empty) =~= Seq::<(Seq<char>, Seq<char>)>::empty());
        assert(fields_view(fields@) + guano_fields(empty) =~= fields_view(fields@));
    }
    GuanoMetadata { fields }
}

/// Little-endian value of the four bytes of `b` from `p`.
pub open spec fn le32_at(b: Seq<u8>, p: int) -> int {
    b[p] + 256 * b[p + 1] + 65536 * b[p + 2] + 16777216 * b[p + 3]
}

/// The four little-endian bytes of `n` modulo 2^32.
pub open spec fn le32_bytes(n: int) -> Seq<u8> {
    seq![
        (n % 256) as u8,
        (n / 256 % 256) as u8,
        (n / 65536 % 256) as u8,
        (n / 16777216 % 256) as u8,
    ]
}

/// The four bytes of the chunk id "guan".
pub open spec fn guan_id() -> Seq<u8> {
    seq![0x67u8, 0x75u8, 0x61u8, 0x6eu8]
}

/// Whether `b` starts with a RIFF/WAVE header.
pub open spec fn is_riff_wave(b: Seq<u8>) -> bool {
    &&& b.len() >= 12
    &&& b.subrange(0, 4) == seq![0x52u8, 0x49u8, 0x46u8, 0x46u8]
    &&& b.subrange(8, 12) == seq![0x57u8, 0x41u8, 0x56u8, 0x45u8]
}

/// Data range of the first "guan" chunk whose data lies within `b`,
/// walking the chunks from `pos`; each chunk is an id, a little-endian size
/// and its data padded to an even length.
pub open spec fn find_guan(b: Seq<u8>, pos: int) -> Option<(int, int)>
    decreases b.len() - pos,
{
    if pos < 0 || pos + 8 > b.len() {
        None
    } else {
        let size = le32_at(b, pos + 4);
        let data_start = pos + 8;
        let data_end = data_start + size;
        if b.subrange(pos, pos + 4) == guan_id() && data_end <= b.len() {
            Some((data_start, data_end))
        } else {
            let next = data_start + size + size % 2;
            if next >= b.len() {
                None
            } else {
                find_guan(b, next)
            }
        }
    }
}

/// Fields of the GUANO chunk of WAV bytes `b`: none unless `b` is RIFF/WAVE
/// with a "guan" chunk whose data is valid UTF-8.
pub open spec fn spec_parse_guano(b: Seq<u8>) -> Option<Seq<(Seq<char>, Seq<char>)>> {
    if !is_riff_wave(b) {
        None
    } else {
        match find_guan(b, 12) {
            None => None,
            Some((s, e)) => if valid_utf8(b.subrange(s, e)) {
                Some(guano_fields(decode_utf8(b.subrange(s, e))))
            } else {
                None
            },
        }
    }
}

/// Looks for a "guan" chunk in WAV bytes and parses its GUANO text.
pub fn parse_guano(bytes: &[u8]) -> (r: Option<GuanoMetadata>)
    ensures
        r is Some == spec_parse_guano(bytes@) is Some,
        r is Some ==> r->0.view_fields() == spec_parse_guano(bytes@)->0,
{
    let len = bytes.len();
    if len < 12 || bytes[0] != 0x52 || bytes[1] != 0x49 || bytes[2] != 0x46 || bytes[3] != 0x46
        || bytes[8] != 0x57 || bytes[9] != 0x41 || bytes[10] != 0x56 || bytes[11] != 0x45 {
        proof {
            if len >= 12 {
                if bytes@.subrange(0, 4) == seq![0x52u8, 0x49u8, 0x46u8, 0x46u8] {
                    assert(bytes@.subrange(0, 4)[0] == bytes@[0]);
                    assert(bytes@.subrange(0, 4)[1] == bytes@[1]);
                    assert(bytes@.subrange(0, 4)[2] == bytes@[2]);
                    assert(bytes@.subrange(0, 4)[3] == bytes@[3]);
                }
                if bytes@.subrange(8, 12) == seq![0x57u8, 0x41u8, 0x56u8, 0x45u8] {
                    assert(bytes@.subrange(8, 12)[0] == bytes@[8]);
                    assert(bytes@.subrange(8, 12)[1] == bytes@[9]);
                    assert(bytes@.subrange(8, 12)[2] == bytes@[10]);
                    assert(bytes@.subrange(8, 12)[3] == bytes@[11]);
                }
            }
        }
        return None;
    }
    proof {
        assert(bytes@.subrange(0, 4) =~= seq![0x52u8, 0x49u8, 0x46u8, 0x46u8]);
        assert(bytes@.subrange(8, 12) =~= seq![0x57u8, 0x41u8, 0x56u8, 0x45u8]);
    }
    let mut pos: usize = 12;
    while pos <= len && len - pos >= 8
        invariant
            len == bytes@.len(),
            12 <= pos,
            is_riff_wave(bytes@),
            find_guan(bytes@, 12) == find_guan(bytes@, pos as int),
        decreases len - pos,
    {
        let size: u64 = bytes[pos + 4] as u64 + 256 * (bytes[pos + 5] as u64) + 65536 * (
        bytes[pos + 6] as u64) + 16777216 * (bytes[pos + 7] as u64);
        let data_start = pos + 8;
        let room = len - data_start;
        let is_guan = bytes[pos] == 0x67 && bytes[pos + 1] == 0x75 && bytes[pos + 2] == 0x61
            && bytes[pos + 3] == 0x6e;
        proof {
            let id = bytes@.subrange(pos as int, pos + 4);
            if is_guan {
                assert(id =~= guan_id());
            } else if id == guan_id() {
                assert(id[0] == bytes@[pos as int]);
                assert(id[1] == bytes@[pos + 1]);
                assert(id[2] == bytes@[pos + 2]);
                assert(id[3] == bytes@[pos + 3]);
            }
            assert(size == le32_at(bytes@, pos + 4));
        }
        if is_guan && size <= room as u64 {
            let data_end = data_start + size as usize;
            return match str_from_utf8(&bytes[data_start..data_end]) {
                Some(text) => {
                    proof {
                        assert(bytes@.subrange(data_start as int, data_end as int) =~= bytes@.subrange(
                            data_start as int,
                            data_end as int,
                        ));
                    }
                    Some(parse_guano_text(text))
                },
                None => None,
            };
        }
        let padded: u64 = size + size % 2;
        if padded >= room as u64 {
            return None;
        }
        pos = data_start + padded as usize;
    }
    None
}

/// WAV bytes `w` with GUANO text bytes `t` appended as a "guan" chunk
/// (id, little-endian size, data, a zero byte when the size is odd) and
/// the RIFF size field (bytes 4..8) set to the new length minus 8, both
/// sizes taken modulo 2^32.
pub open spec fn with_guano_chunk(w: Seq<u8>, t: Seq<u8>) -> Seq<u8> {
    let pad = if t.len() % 2 == 1 {
        seq![0u8]
    } else {
        Seq::<u8>::empty()
    };
    let body = w + guan_id() + le32_bytes(t.len() as int) + t + pad;
    body.take(4) + le32_bytes(body.len() - 8) + body.skip(8)
}

/// Appends `b` to `v`.
fn push_all(v: &mut Vec<u8>, b: &[u8])
    ensures
        final(v)@ == old(v)@ + b@,
{
    let mut i: usize = 0;
    while i < b.len()
        invariant
            i <= b@.len(),
            v@ == old(v)@ + b@.take(i as int),
        decreases b@.len() - i,
    {
        v.push(b[i]);
        proof {
            assert(b@.take(i + 1) =~= b@.take(i as int).push(b@[i as int]));
        }
        i = i + 1;
    }
    proof {
        assert(b@.take(i as int) =~= b@);
    }
}

/// The four little-endian bytes of `n` modulo 2^32.
fn le32_of(n: usize) -> (r: [u8; 4])
    ensures
        r@ == le32_bytes(n as int),
{
    let r = [
        (n % 256) as u8,
        (n / 256 % 256) as u8,
        (n / 65536 % 256) as u8,
        (n / 16777216 % 256) as u8,
    ];
    proof {
        assert(r@ =~= le32_bytes(n as int));
    }
    r
}

/// Appends GUANO text as a "guan" chunk to WAV bytes and updates the RIFF
/// size field at bytes 4..8.
pub fn append_guano_chunk(wav_bytes: &mut Vec<u8>, guano_text: &str)
    requires
        old(wav_bytes)@.len() >= 8,
    ensures
        final(wav_bytes)@ == with_guano_chunk(old(wav_bytes)@, guano_text.spec_bytes()),
{
    let text_bytes = guano_text.as_bytes();
    let id: [u8; 4] = [0x67, 0x75, 0x61, 0x6e];
    push_all(wav_bytes, id.as_slice());
    let size = le32_of(text_bytes.len());
    push_all(wav_bytes, size.as_slice());
    push_all(wav_bytes, text_bytes);
    if text_bytes.len() % 2 != 0 {
        wav_bytes.push(0);
    }
    let ghost body = wav_bytes@;
    let riff = le32_of(wav_bytes.len() - 8);
    wav_bytes[4] = riff[0];
    wav_bytes[5] = riff[1];
    wav_bytes[6] = riff[2];
    wav_bytes[7] = riff[3];
    proof {
        let t = guano_text.spec_bytes();
        let pad = if t.len() % 2 == 1 {
            seq![0u8]
        } else {
            Seq::<u8>::empty()
        };
        assert(id@ =~= guan_id());
        assert(body =~= old(wav_bytes)@ + guan_id() + le32_bytes(t.len() as int) + t + pad);
        assert(wav_bytes@ =~= body.take(4) + le32_bytes(body.len() - 8) + body.skip(8));
    }
}

} // verus!
