//! Re-assembly of UTF-8 text that arrives in arbitrary byte chunks.
//!
//! A reader that pulls fixed-size chunks from a byte stream cuts the stream
//! at raw byte positions, so a chunk may end in the middle of one
//! character's multi-byte encoding. Decoding each chunk on its own would
//! then fail on perfectly good text. The assembler here holds such an
//! incomplete tail back and puts it in front of the next chunk, so that
//! every piece of text it hands out consists of whole characters, and the
//! pieces together decode the stream exactly as one-shot decoding would.

use vstd::prelude::*;
use vstd::utf8::*;

verus! {

broadcast use vstd::utf8::group_utf8_lib;

/// The byte width that a leading byte announces for its character's
/// encoding; 0 when the byte cannot begin an encoding.
pub open spec fn announced_width(b: u8) -> int {
    if is_leading_byte_width_1(b) {
        1
    } else if is_leading_byte_width_2(b) {
        2
    } else if is_leading_byte_width_3(b) {
        3
    } else if is_leading_byte_width_4(b) {
        4
    } else {
        0
    }
}

/// How many bytes at the end of `bytes` begin, but do not complete, the
/// encoding of one character: the bytes a chunked reader must hold back. An
/// encoding is at most 4 bytes, so only the last leading byte among the
/// final 3 bytes can announce one that is still unfinished.
pub open spec fn carry_len(bytes: Seq<u8>) -> int {
    let n = bytes.len() as int;
    if n >= 1 && !is_continuation_byte(bytes[n - 1]) {
        if announced_width(bytes[n - 1]) > 1 {
            1
        } else {
            0
        }
    } else if n >= 2 && !is_continuation_byte(bytes[n - 2]) {
        if announced_width(bytes[n - 2]) > 2 {
            2
        } else {
            0
        }
    } else if n >= 3 && !is_continuation_byte(bytes[n - 3]) {
        if announced_width(bytes[n - 3]) > 3 {
            3
        } else {
            0
        }
    } else {
        0
    }
}

/// Where the assembler cuts `bytes`: everything before the cut is decoded
/// now, everything after it waits for the next chunk.
pub open spec fn cut_point(bytes: Seq<u8>) -> int {
    bytes.len() - carry_len(bytes)
}

/// The bytes decoded now.
pub open spec fn ready_part(bytes: Seq<u8>) -> Seq<u8> {
    bytes.subrange(0, cut_point(bytes))
}

/// The bytes held back for the next chunk.
pub open spec fn held_part(bytes: Seq<u8>) -> Seq<u8> {
    bytes.subrange(cut_point(bytes), bytes.len() as int)
}

/// What one feed hands out: the text decoded from the held-back bytes
/// followed by the chunk, up to the last complete character.
pub open spec fn feed_text(held: Seq<u8>, chunk: Seq<u8>) -> Seq<char> {
    decode_utf8(ready_part(held + chunk))
}

/// What one feed holds back for the next chunk.
pub open spec fn feed_carry(held: Seq<u8>, chunk: Seq<u8>) -> Seq<u8> {
    held_part(held + chunk)
}

/// Relies on `std::str::from_utf8`: it succeeds exactly on valid UTF-8, and
/// the resulting slice views the characters those bytes encode.
#[verifier::external_body]
fn bytes_to_str(v: &[u8]) -> (r: Option<&str>)
    ensures
        r is Some <==> valid_utf8(v@),
        (r matches Some(s) ==> s@ == decode_utf8(v@)),
{
    std::str::from_utf8(v).ok()
}

/// The byte width announced by a leading byte; 0 for a byte that cannot
/// begin a character's encoding.
fn width_of_leading(b: u8) -> (w: u8)
    ensures
        w as int == announced_width(b),
{
    if b <= 0x7f {
        1
    } else if 0xc0 <= b && b <= 0xdf {
        2
    } else if 0xe0 <= b && b <= 0xef {
        3
    } else if 0xf0 <= b && b <= 0xf7 {
        4
    } else {
        0
    }
}

/// Re-assembles UTF-8 text from byte chunks cut at arbitrary positions.
pub struct Utf8Assembler {
    pending: Vec<u8>,
}

impl Utf8Assembler {
    /// The bytes held back from earlier chunks.
    pub closed spec fn pending_bytes(&self) -> Seq<u8> {
        self.pending@
    }

    /// A fresh assembler with nothing held back.
    pub fn new() -> (r: Self)
        ensures
            r.pending_bytes() == Seq::<u8>::empty(),
    {
        Utf8Assembler { pending: Vec::new() }
    }

    /// Whether nothing is held back. At end of input, a held-back remainder
    /// means the stream stopped in the middle of one character's encoding.
    pub fn is_complete(&self) -> (r: bool)
        ensures
            r == (self.pending_bytes().len() == 0),
    {
        self.pending.len() == 0
    }

    /// Feeds one chunk. Hands out the text decoded from the held-back bytes
    /// followed by the chunk, up to the last complete character, and holds
    /// the rest back. Returns `None`, holding everything unchanged, exactly
    /// when the bytes to decode are not valid UTF-8 text.
    pub fn feed(&mut self, chunk: &[u8]) -> (r: Option<String>)
        ensures
            ({
                let held = old(self).pending_bytes();
                &&& (r is Some <==> valid_utf8(ready_part(held + chunk@)))
                &&& (match r {
                    Some(s) => s@ == feed_text(held, chunk@) && final(self).pending_bytes()
                        == feed_carry(held, chunk@),
                    None => final(self).pending_bytes() == held,
                })
            }),
    {
        let ghost combined_spec = self.pending@ + chunk@;
        let mut combined: Vec<u8> = Vec::new();
        let mut i: usize = 0;
        while i < self.pending.len()
            invariant
                i <= self.pending@.len(),
                combined@ == self.pending@.take(i as int),
            decreases self.pending@.len() - i,
        {
            proof {
                assert(self.pending@.take(i as int).push(self.pending@[i as int])
                    =~= self.pending@.take(i as int + 1));
            }
            combined.push(self.pending[i]);
            i += 1;
        }
        proof {
            assert(self.pending@.take(self.pending@.len() as int) =~= self.pending@);
        }
        let mut j: usize = 0;
        while j < chunk.len()
            invariant
                j <= chunk@.len(),
                combined@ == self.pending@ + chunk@.take(j as int),
            decreases chunk@.len() - j,
        {
            proof {
                assert((self.pending@ + chunk@.take(j as int)).push(chunk@[j as int])
                    =~= self.pending@ + chunk@.take(j as int + 1));
            }
            combined.push(chunk[j]);
            j += 1;
        }
        proof {
            assert(self.pending@ + chunk@.take(chunk@.len() as int) =~= combined_spec);
        }
        let n = combined.len();
        let carry: usize = if n >= 1 && !(0x80 <= combined[n - 1] && combined[n - 1] <= 0xbf) {
            if width_of_leading(combined[n - 1]) > 1 {
                1
            } else {
                0
            }
        } else if n >= 2 && !(0x80 <= combined[n - 2] && combined[n - 2] <= 0xbf) {
            if width_of_leading(combined[n - 2]) > 2 {
                2
            } else {
                0
            }
        } else if n >= 3 && !(0x80 <= combined[n - 3] && combined[n - 3] <= 0xbf) {
            if width_of_leading(combined[n - 3]) > 3 {
                3
            } else {
                0
            }
        } else {
            0
        };
        proof {
            assert(carry as int == carry_len(combined@));
        }
        let k = n - carry;
        let mut held: Vec<u8> = Vec::new();
        let mut m: usize = k;
        while m < n
            invariant
                k <= m <= n,
                n == combined@.len(),
                held@ == combined@.subrange(k as int, m as int),
            decreases n - m,
        {
            proof {
                assert(combined@.subrange(k as int, m as int).push(combined@[m as int])
                    =~= combined@.subrange(k as int, m as int + 1));
            }
            held.push(combined[m]);
            m += 1;
        }
        combined.truncate(k);
        proof {
            assert(combined@ == ready_part(combined_spec));
            assert(held@ == held_part(combined_spec));
        }
        match bytes_to_str(combined.as_slice()) {
            Some(s) => {
                let out = s.to_owned();
                self.pending = held;
                Some(out)
            },
            None => None,
        }
    }
}

proof fn lemma_scalar_len_is_announced(s: Seq<u8>)
    requires
        valid_first_scalar(s),
    ensures
        length_of_first_scalar(s) == announced_width(s[0]),
        1 <= length_of_first_scalar(s) <= 4,
        forall|x: int| 1 <= x < length_of_first_scalar(s) ==> is_continuation_byte(#[trigger] s[x]),
{
}

proof fn lemma_boundary_gap(v: Seq<u8>, j: int, m: int)
    requires
        valid_utf8(v),
        is_char_boundary(v, j),
        is_char_boundary(v, m),
        0 <= j < m <= v.len(),
    ensures
        j + length_of_first_scalar(v.subrange(j, v.len() as int)) <= m,
    decreases j,
{
    let w1 = length_of_first_scalar(v);
    let pop = pop_first_scalar(v);
    if j == 0 {
        assert(v.subrange(0, v.len() as int) =~= v);
        assert(is_char_boundary(pop, m - w1));
    } else {
        assert(is_char_boundary(pop, j - w1));
        assert(is_char_boundary(pop, m - w1));
        lemma_boundary_gap(pop, j - w1, m - w1);
        assert(pop.subrange(j - w1, pop.len() as int) =~= v.subrange(j, v.len() as int));
    }
}

proof fn lemma_enclosing_char(v: Seq<u8>, l: int) -> (j0: int)
    requires
        valid_utf8(v),
        0 <= l <= v.len(),
        !is_char_boundary(v, l),
    ensures
        0 <= j0 < l,
        is_char_boundary(v, j0),
        l < j0 + length_of_first_scalar(v.subrange(j0, v.len() as int)),
    decreases l,
{
    let w1 = length_of_first_scalar(v);
    let pop = pop_first_scalar(v);
    if l < w1 {
        assert(v.subrange(0, v.len() as int) =~= v);
        0
    } else {
        if l == w1 {
            assert(is_char_boundary(pop, 0));
            assert(is_char_boundary(v, l));
        }
        assert(l > w1);
        assert(!is_char_boundary(pop, l - w1));
        let j = lemma_enclosing_char(pop, l - w1);
        assert(pop.subrange(j, pop.len() as int) =~= v.subrange(j + w1, v.len() as int));
        assert(is_char_boundary(v, j + w1));
        j + w1
    }
}

proof fn lemma_cut_on_boundary(v: Seq<u8>, l: int)
    requires
        valid_utf8(v),
        0 <= l <= v.len(),
    ensures
        ({
            let k = cut_point(v.subrange(0, l));
            &&& 0 <= k <= l
            &&& is_char_boundary(v, k)
            &&& (is_char_boundary(v, l) ==> k == l)
        }),
{
    let c = v.subrange(0, l);
    let k = cut_point(c);
    if is_char_boundary(v, l) {
        if carry_len(c) != 0 {
            let d = carry_len(c);
            assert(1 <= d <= 3 && d <= l);
            assert(!is_continuation_byte(c[l - d]));
            assert(announced_width(c[l - d]) > d);
            assert(c[l - d] == v[l - d]);
            is_char_boundary_iff_not_is_continuation_byte(v, l - d);
            lemma_boundary_gap(v, l - d, l);
            valid_utf8_split(v, l - d);
            let suf = v.subrange(l - d, v.len() as int);
            assert(valid_utf8(suf) && suf.len() > 0);
            assert(valid_first_scalar(suf));
            lemma_scalar_len_is_announced(suf);
            assert(suf[0] == v[l - d]);
            assert(false);
        }
        assert(k == l);
    } else {
        let j0 = lemma_enclosing_char(v, l);
        valid_utf8_split(v, j0);
        let suf = v.subrange(j0, v.len() as int);
        assert(valid_utf8(suf) && suf.len() > 0);
        assert(valid_first_scalar(suf));
        lemma_scalar_len_is_announced(suf);
        let w = length_of_first_scalar(suf);
        let d = l - j0;
        assert(1 <= d && d < w && w <= 4);
        assert(forall|x: int| j0 < x < l ==> is_continuation_byte(#[trigger] v[x])) by {
            assert(forall|x: int| 1 <= x < w ==> is_continuation_byte(#[trigger] suf[x]));
            assert(forall|x: int| j0 < x < l ==> v[x] == suf[x - j0] && 1 <= x - j0 < w);
        }
        is_char_boundary_iff_not_is_continuation_byte(v, j0);
        assert(!is_continuation_byte(v[j0]));
        assert(c[l - d] == v[j0]);
        assert(announced_width(v[j0]) == w);
        if d == 2 {
            assert(is_continuation_byte(c[l - 1]));
        }
        if d == 3 {
            assert(is_continuation_byte(c[l - 1]) && is_continuation_byte(c[l - 2]));
        }
        assert(carry_len(c) == d);
        assert(k == j0);
    }
}

/// All the bytes of a sequence of chunks, in order.
pub open spec fn concat_chunks(chunks: Seq<Seq<u8>>) -> Seq<u8>
    decreases chunks.len(),
{
    if chunks.len() == 0 {
        Seq::empty()
    } else {
        chunks[0] + concat_chunks(chunks.drop_first())
    }
}

/// The text a run of feeds hands out, chunk after chunk, starting with
/// `held` bytes already held back.
pub open spec fn run_text(held: Seq<u8>, chunks: Seq<Seq<u8>>) -> Seq<char>
    decreases chunks.len(),
{
    if chunks.len() == 0 {
        Seq::empty()
    } else {
        feed_text(held, chunks[0]) + run_text(feed_carry(held, chunks[0]), chunks.drop_first())
    }
}

/// The bytes still held back after a run of feeds.
pub open spec fn run_carry(held: Seq<u8>, chunks: Seq<Seq<u8>>) -> Seq<u8>
    decreases chunks.len(),
{
    if chunks.len() == 0 {
        held
    } else {
        run_carry(feed_carry(held, chunks[0]), chunks.drop_first())
    }
}

/// Whether every feed of a run succeeds.
pub open spec fn run_ok(held: Seq<u8>, chunks: Seq<Seq<u8>>) -> bool
    decreases chunks.len(),
{
    chunks.len() == 0 || (valid_utf8(ready_part(held + chunks[0])) && run_ok(
        feed_carry(held, chunks[0]),
        chunks.drop_first(),
    ))
}

proof fn lemma_run_decodes(held: Seq<u8>, chunks: Seq<Seq<u8>>)
    requires
        valid_utf8(held + concat_chunks(chunks)),
    ensures
        run_ok(held, chunks),
        run_text(held, chunks) + decode_utf8(run_carry(held, chunks)) == decode_utf8(
            held + concat_chunks(chunks),
        ),
        valid_utf8(run_carry(held, chunks)),
        chunks.len() > 0 ==> run_carry(held, chunks).len() == 0,
    decreases chunks.len(),
{
    let v = held + concat_chunks(chunks);
    if chunks.len() == 0 {
        assert(v =~= held);
        assert(Seq::<char>::empty() + decode_utf8(held) =~= decode_utf8(held));
    } else {
        let c0 = chunks[0];
        let rest = chunks.drop_first();
        let combined = held + c0;
        let l = combined.len() as int;
        assert(combined =~= v.subrange(0, l));
        lemma_cut_on_boundary(v, l);
        let k = cut_point(combined);
        valid_utf8_split(v, k);
        decode_utf8_split(v, k);
        assert(ready_part(combined) =~= v.subrange(0, k));
        let held2 = feed_carry(held, c0);
        assert(held2 =~= combined.subrange(k, l));
        assert(held2 + concat_chunks(rest) =~= v.subrange(k, v.len() as int));
        lemma_run_decodes(held2, rest);
        assert(feed_text(held, c0) + (run_text(held2, rest) + decode_utf8(run_carry(held2, rest)))
            =~= (feed_text(held, c0) + run_text(held2, rest)) + decode_utf8(
            run_carry(held2, rest),
        ));
        if rest.len() == 0 {
            assert(v =~= combined);
            assert(is_char_boundary(v, l));
            assert(k == l);
            assert(held2 =~= Seq::<u8>::empty());
        }
    }
}

/// Streaming correctness: however the UTF-8 encoding of a text is cut into
/// chunks — including cuts that fall inside one character's encoding —
/// feeding the chunks one by one succeeds at every step, hands out exactly
/// that text, and holds nothing back at the end: the same output as feeding
/// every byte in a single chunk.
pub proof fn lemma_streaming_agrees(text: Seq<char>, chunks: Seq<Seq<u8>>)
    requires
        concat_chunks(chunks) == encode_utf8(text),
    ensures
        run_ok(Seq::empty(), chunks),
        run_text(Seq::empty(), chunks) == text,
        run_carry(Seq::empty(), chunks).len() == 0,
        run_text(Seq::empty(), seq![encode_utf8(text)]) == text,
{
    let whole = encode_utf8(text);
    assert(valid_utf8(whole));
    assert(decode_utf8(whole) == text);
    assert(Seq::<u8>::empty() + concat_chunks(chunks) =~= whole);
    lemma_run_decodes(Seq::empty(), chunks);
    if chunks.len() == 0 {
        if text.len() > 0 {
            assert(encode_scalar(text[0] as u32).len() >= 1);
            assert(whole.len() >= 1);
        }
        assert(run_text(Seq::empty(), chunks) =~= text);
    } else {
        assert(decode_utf8(run_carry(Seq::empty(), chunks)) == Seq::<char>::empty());
        assert(run_text(Seq::empty(), chunks) + Seq::<char>::empty() =~= run_text(
            Seq::empty(),
            chunks,
        ));
    }
    let single = seq![whole];
    assert(single.drop_first() =~= Seq::<Seq<u8>>::empty());
    assert(concat_chunks(single.drop_first()) == Seq::<u8>::empty());
    assert(concat_chunks(single) =~= whole);
    assert(Seq::<u8>::empty() + concat_chunks(single) =~= whole);
    lemma_run_decodes(Seq::empty(), single);
    assert(decode_utf8(run_carry(Seq::empty(), single)) == Seq::<char>::empty());
    assert(run_text(Seq::empty(), single) + Seq::<char>::empty() =~= run_text(
        Seq::empty(),
        single,
    ));
}

} // verus!
