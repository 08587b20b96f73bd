//! Domain-name codec over the frame buffer.
//!
//! A domain name is held decoded as a dot-joined byte string without a
//! trailing dot, e.g. `google.com`. On the wire each label is a length byte
//! (1 to 63) followed by its octets, the sequence ends with a zero byte, and
//! a byte whose two top bits are set is a compression pointer: together with
//! the next byte it names an absolute offset where the rest of the name
//! continues. Decoding follows at most five pointer jumps and lowercases
//! every label; encoding never produces pointers.

use vstd::prelude::*;
use crate::buffer::{BytePacketBuffer, DnsError, spliced, lemma_spliced_push};

verus! {

/// ASCII lowercase of one octet; bytes outside `A`..`Z` are unchanged.
pub open spec fn lower_byte(b: u8) -> u8 {
    if 65 <= b <= 90 {
        (b + 32) as u8
    } else {
        b
    }
}

/// ASCII lowercase of a byte string.
pub open spec fn lower_seq(s: Seq<u8>) -> Seq<u8> {
    s.map_values(|b: u8| lower_byte(b))
}

/// Index of the first dot in `n`, or `n.len()` if there is none.
pub open spec fn first_dot(n: Seq<u8>) -> nat
    decreases n.len(),
{
    if n.len() == 0 {
        0
    } else if n[0] == 46 {
        0
    } else {
        (1 + first_dot(n.drop_first())) as nat
    }
}

pub proof fn lemma_first_dot(n: Seq<u8>)
    ensures
        0 <= first_dot(n) <= n.len(),
        forall|k: int| 0 <= k < first_dot(n) ==> n[k] != 46,
        first_dot(n) < n.len() ==> n[first_dot(n) as int] == 46,
    decreases n.len(),
{
    if n.len() != 0 && n[0] != 46 {
        lemma_first_dot(n.drop_first());
        assert forall|k: int| 0 <= k < first_dot(n) implies n[k] != 46 by {
            if k > 0 {
                assert(n.drop_first()[k - 1] == n[k]);
            }
        }
        if first_dot(n) < n.len() {
            assert(n.drop_first()[first_dot(n) - 1] == n[first_dot(n) as int]);
        }
    }
}

/// The properties of `lemma_first_dot` pin the first dot down.
pub proof fn lemma_first_dot_is(n: Seq<u8>, d: int)
    requires
        0 <= d <= n.len(),
        forall|k: int| 0 <= k < d ==> n[k] != 46,
        d < n.len() ==> n[d] == 46,
    ensures
        first_dot(n) == d,
    decreases n.len(),
{
    if n.len() != 0 && n[0] != 46 {
        assert(d != 0);
        lemma_first_dot_is(n.drop_first(), d - 1);
    }
}

/// Every label of `n` is at most 63 bytes (the encoder's only check).
pub open spec fn labels_fit(n: Seq<u8>) -> bool
    decreases n.len(),
{
    let d = first_dot(n);
    d <= 63 && (d >= n.len() || labels_fit(n.skip(d + 1 as int)))
}

/// Every label of `n` is 1 to 63 bytes, as a well-formed domain name has.
pub open spec fn valid_name(n: Seq<u8>) -> bool
    decreases n.len(),
{
    let d = first_dot(n);
    1 <= d <= 63 && (d >= n.len() || valid_name(n.skip(d + 1 as int)))
}

/// The uncompressed wire form of `n`: each label as a length byte followed
/// by its octets, closed by a zero byte.
pub open spec fn enc_name(n: Seq<u8>) -> Seq<u8>
    decreases n.len(),
{
    let d = first_dot(n);
    if d >= n.len() {
        seq![#[verifier::truncate] (n.len() as u8)] + n + seq![0u8]
    } else {
        seq![#[verifier::truncate] (d as u8)] + n.take(d as int) + enc_name(n.skip(d + 1 as int))
    }
}

pub proof fn lemma_enc_name_len(n: Seq<u8>)
    ensures
        enc_name(n).len() >= n.len() + 2,
        enc_name(n).len() >= first_dot(n) + 2,
    decreases n.len(),
{
    lemma_first_dot(n);
    let d = first_dot(n);
    if d < n.len() {
        lemma_enc_name_len(n.skip(d + 1 as int));
    }
}

/// Dot-joined concatenation of two partial names, either possibly empty.
pub open spec fn join_names(a: Seq<u8>, b: Seq<u8>) -> Seq<u8> {
    if a.len() == 0 {
        b
    } else if b.len() == 0 {
        a
    } else {
        a + seq![46u8] + b
    }
}

pub proof fn lemma_join_assoc(a: Seq<u8>, b: Seq<u8>, c: Seq<u8>)
    ensures
        join_names(join_names(a, b), c) == join_names(a, join_names(b, c)),
{
    if a.len() != 0 && b.len() != 0 && c.len() != 0 {
        assert(join_names(join_names(a, b), c) =~= join_names(a, join_names(b, c)));
    }
}

/// Whether a length byte announces a compression pointer.
pub open spec fn is_pointer(len: u8) -> bool {
    len & 0xc0 == 0xc0
}

/// The absolute offset named by a pointer's two bytes.
pub open spec fn pointer_target(len: u8, b2: u8) -> int {
    ((len ^ 0xc0) as int) * 256 + (b2 as int)
}

/// One name decoded by walking `buf` from `pos` with `jumps` pointer jumps
/// already taken. On success: the lowercased dot-joined name, and the
/// position at which the outer reader resumes — just past the first pointer
/// if one was followed, else just past the closing zero byte.
pub open spec fn name_walk(buf: Seq<u8>, pos: int, jumps: int) -> Result<(Seq<u8>, int), DnsError>
    decreases 6 - jumps, 512 - pos,
{
    if jumps > 5 {
        Err(DnsError::PointerLoop)
    } else if pos < 0 || pos >= 512 {
        Err(DnsError::EndOfBuffer)
    } else {
        let len = buf[pos];
        if is_pointer(len) {
            if pos + 1 >= 512 {
                Err(DnsError::EndOfBuffer)
            } else {
                match name_walk(buf, pointer_target(len, buf[pos + 1]), jumps + 1) {
                    Ok((name, _)) => Ok((name, pos + 2)),
                    Err(e) => Err(e),
                }
            }
        } else if len == 0 {
            Ok((Seq::empty(), pos + 1))
        } else if pos + 1 + (len as int) >= 512 {
            Err(DnsError::EndOfBuffer)
        } else {
            match name_walk(buf, pos + 1 + (len as int), jumps) {
                Ok((rest, resume)) => Ok(
                    (
                        join_names(lower_seq(buf.subrange(pos + 1, pos + 1 + (len as int))), rest),
                        resume,
                    ),
                ),
                Err(e) => Err(e),
            }
        }
    }
}

/// Whether `qname` ends with `domain`, bytewise; decoded names are already
/// lowercase, so this is the case-insensitive suffix test.
pub open spec fn name_is_suffix(qname: Seq<u8>, domain: Seq<u8>) -> bool {
    domain.len() <= qname.len() && qname.skip(qname.len() - domain.len()) == domain
}

/// Bytewise equality of two byte strings.
pub fn bytes_eq(a: &Vec<u8>, b: &Vec<u8>) -> (r: bool)
    ensures
        r == (a@ == b@),
{
    if a.len() != b.len() {
        return false;
    }
    let mut k: usize = 0;
    while k < a.len()
        invariant
            a@.len() == b@.len(),
            k <= a@.len(),
            forall|j: int| 0 <= j < k ==> a@[j] == b@[j],
        decreases a@.len() - k,
    {
        if a[k] != b[k] {
            return false;
        }
        k = k + 1;
    }
    proof {
        assert(a@ =~= b@);
    }
    true
}

/// Whether `qname` ends with `domain` (executable twin of
/// `name_is_suffix`).
pub fn name_ends_with(qname: &Vec<u8>, domain: &Vec<u8>) -> (r: bool)
    ensures
        r == name_is_suffix(qname@, domain@),
{
    if domain.len() > qname.len() {
        return false;
    }
    let off = qname.len() - domain.len();
    let ghost tail = qname@.skip(off as int);
    let mut i: usize = off;
    let mut k: usize = 0;
    while i < qname.len()
        invariant
            off == qname@.len() - domain@.len(),
            off <= i <= qname@.len(),
            k == i - off,
            tail == qname@.skip(off as int),
            forall|j: int| 0 <= j < k ==> tail[j] == domain@[j],
        decreases qname@.len() - i,
    {
        if qname[i] != domain[k] {
            proof {
                assert(tail[k as int] == qname@[i as int]);
            }
            return false;
        }
        proof {
            assert(tail[k as int] == qname@[i as int]);
        }
        i = i + 1;
        k = k + 1;
    }
    proof {
        assert(tail =~= domain@);
    }
    true
}

/// An owned copy of a byte string.
pub fn clone_bytes(v: &Vec<u8>) -> (r: Vec<u8>)
    ensures
        r@ == v@,
{
    let mut out: Vec<u8> = Vec::new();
    let mut k: usize = 0;
    while k < v.len()
        invariant
            k <= v@.len(),
            out@ == v@.take(k as int),
        decreases v@.len() - k,
    {
        out.push(v[k]);
        proof {
            assert(v@.take(k as int).push(v@[k as int]) =~= v@.take(k as int + 1));
        }
        k = k + 1;
    }
    proof {
        assert(v@.take(v@.len() as int) =~= v@);
    }
    out
}

/// Lowercase one octet (executable twin of `lower_byte`).
fn lower(b: u8) -> (r: u8)
    ensures
        r == lower_byte(b),
{
    if 65 <= b && b <= 90 {
        b + 32
    } else {
        b
    }
}

impl BytePacketBuffer {
    /// Encode one domain name at the cursor in uncompressed wire form:
    /// each label's length byte then its octets, closed by a zero byte.
    /// Fails with `LabelTooLong` on a label over 63 bytes and with
    /// `EndOfBuffer` when the encoding does not fit before byte 512.
    pub fn write_qname(&mut self, qname: &Vec<u8>) -> (r: Result<(), DnsError>)
        ensures
            r is Ok <==> labels_fit(qname@) && old(self).pos + enc_name(qname@).len() <= 512,
            r is Ok ==> final(self).buf@ == spliced(
                old(self).buf@,
                old(self).pos as int,
                enc_name(qname@),
            ) && final(self).pos == old(self).pos + enc_name(qname@).len(),
            match r {
                Ok(()) => true,
                Err(e) => (e == DnsError::LabelTooLong && !labels_fit(qname@)) || (e
                    == DnsError::EndOfBuffer && old(self).pos + enc_name(qname@).len() > 512),
            },
    {
        let ghost n = qname@;
        let ghost buf0 = self.buf@;
        let ghost p0 = self.pos as int;
        let ghost total = enc_name(n);
        let mut i: usize = 0;
        let ghost mut written: Seq<u8> = Seq::empty();
        proof {
            assert(spliced(buf0, p0, written) =~= buf0);
            assert(n.skip(0) =~= n);
            assert(written + enc_name(n.skip(0)) =~= enc_name(n));
        }
        loop
            invariant
                old(self).buf@ == buf0,
                old(self).pos as int == p0,
                n == qname@,
                total == enc_name(n),
                i <= qname.len(),
                self.buf@ == spliced(buf0, p0, written),
                self.pos as int == p0 + written.len(),
                total == written + enc_name(n.skip(i as int)),
                labels_fit(n) <==> labels_fit(n.skip(i as int)),
            decreases qname.len() - i,
        {
            let ghost s = n.skip(i as int);
            let ghost w0 = written;
            // find the end of the current label
            let mut j: usize = i;
            while j < qname.len() && qname[j] != 46
                invariant
                    n == qname@,
                    i <= j <= qname.len(),
                    forall|k: int| i <= k < j ==> n[k] != 46,
                decreases qname.len() - j,
            {
                j = j + 1;
            }
            proof {
                assert forall|k: int| 0 <= k < j - i implies s[k] != 46 by {
                    assert(s[k] == n[i + k]);
                }
                if j < n.len() {
                    assert(s[j - i] == n[j as int]);
                }
                lemma_first_dot_is(s, j - i);
            }
            let d = j - i;
            if d > 63 {
                return Err(DnsError::LabelTooLong);
            }
            proof {
                lemma_enc_name_len(s);
            }
            match self.write_u8(d as u8) {
                Ok(()) => (),
                Err(e) => {
                    return Err(e);
                },
            }
            proof {
                lemma_spliced_push(buf0, p0, w0, d as u8);
                written = written.push(d as u8);
                assert(written =~= w0.push(#[verifier::truncate] ((j - i) as u8)) + n.subrange(
                    i as int,
                    i as int,
                ));
            }
            // the label's octets
            let mut k: usize = i;
            while k < j
                invariant
                    n == qname@,
                    buf0.len() == 512,
                    0 <= p0,
                    old(self).buf@ == buf0,
                    old(self).pos as int == p0,
                    total == enc_name(n),
                    total == w0 + enc_name(n.skip(i as int)),
                    first_dot(n.skip(i as int)) == j - i,
                    j - i <= 63,
                    i <= k <= j <= qname.len(),
                    written == w0.push(#[verifier::truncate] ((j - i) as u8)) + n.subrange(
                        i as int,
                        k as int,
                    ),
                    self.buf@ == spliced(buf0, p0, written),
                    self.pos as int == p0 + written.len(),
                decreases j - k,
            {
                let b = qname[k];
                match self.write_u8(b) {
                    Ok(()) => (),
                    Err(e) => {
                        proof {
                            lemma_enc_name_len(n.skip(i as int));
                        }
                        return Err(e);
                    },
                }
                proof {
                    lemma_spliced_push(buf0, p0, written, b);
                    written = written.push(b);
                    assert(written =~= w0.push(#[verifier::truncate] ((j - i) as u8)) + n.subrange(
                        i as int,
                        k + 1,
                    ));
                }
                k = k + 1;
            }
            if j == qname.len() {
                // last label: close the name with the zero byte
                match self.write_u8(0u8) {
                    Ok(()) => (),
                    Err(e) => {
                        proof {
                            assert(enc_name(s).len() == s.len() + 2);
                        }
                        return Err(e);
                    },
                }
                proof {
                    lemma_spliced_push(buf0, p0, written, 0u8);
                    written = written.push(0u8);
                    assert(s =~= n.subrange(i as int, j as int));
                    assert(enc_name(s) == seq![#[verifier::truncate] (s.len() as u8)] + s
                        + seq![0u8]);
                    assert(written =~= w0 + enc_name(s));
                    assert(written == total);
                    assert(labels_fit(s));
                }
                return Ok(());
            }
            proof {
                let d_ = (j - i) as int;
                assert(s.take(d_) =~= n.subrange(i as int, j as int));
                assert(s.skip(d_ + 1) =~= n.skip(j + 1));
                assert(enc_name(s) == seq![#[verifier::truncate] (d_ as u8)] + s.take(d_)
                    + enc_name(s.skip(d_ + 1)));
                assert(written =~= w0 + (seq![#[verifier::truncate] (d_ as u8)] + s.take(d_)));
                assert(total =~= written + enc_name(n.skip(j + 1)));
            }
            i = j + 1;
        }
    }

    /// Decode one domain name at the cursor, appending the lowercased
    /// dot-joined labels to `outstr`, exactly as `name_walk` states: on
    /// success the cursor lands just past the first pointer followed, or
    /// just past the closing zero byte if no pointer was met; on failure
    /// buffer and output are unchanged.
    pub fn read_qname(&mut self, outstr: &mut Vec<u8>) -> (r: Result<(), DnsError>)
        ensures
            final(self).buf == old(self).buf,
            match name_walk(old(self).buf@, old(self).pos as int, 0) {
                Ok(res) => r == Ok::<(), DnsError>(()) && final(self).pos == res.1
                    && final(outstr)@ == old(outstr)@ + res.0,
                Err(e) => r == Err::<(), DnsError>(e) && *final(self) == *old(self)
                    && *final(outstr) == *old(outstr),
            },
    {
        let ghost buf0 = self.buf@;
        let ghost p0 = self.pos as int;
        let mut pos: usize = self.pos;
        let mut jumped = false;
        let mut resume: usize = 0;
        let mut jumps: usize = 0;
        let mut acc: Vec<u8> = Vec::new();

        loop
            invariant
                *self == *old(self),
                *outstr == *old(outstr),
                buf0 == old(self).buf@,
                p0 == old(self).pos as int,
                jumps <= 6,
                name_walk(buf0, p0, 0) == (match name_walk(buf0, pos as int, jumps as int) {
                    Ok(res2) => Ok::<(Seq<u8>, int), DnsError>(
                        (
                            join_names(acc@, res2.0),
                            if jumped {
                                resume as int
                            } else {
                                res2.1
                            },
                        ),
                    ),
                    Err(e) => Err::<(Seq<u8>, int), DnsError>(e),
                }),
            decreases 6 - jumps, 512 - pos,
        {
            if jumps > 5 {
                return Err(DnsError::PointerLoop);
            }
            if pos >= 512 {
                return Err(DnsError::EndOfBuffer);
            }
            let len = self.buf[pos];
            if len & 0xc0 == 0xc0 {
                if pos + 1 >= 512 {
                    return Err(DnsError::EndOfBuffer);
                }
                if !jumped {
                    resume = pos + 2;
                    jumped = true;
                }
                let b2 = self.buf[pos + 1];
                pos = ((len ^ 0xc0) as usize) * 256 + (b2 as usize);
                jumps = jumps + 1;
            } else if len == 0 {
                if !jumped {
                    self.seek(pos + 1);
                } else {
                    self.seek(resume);
                }
                outstr.append(&mut acc);
                return Ok(());
            } else {
                let label = match self.get_range(pos + 1, len as usize) {
                    Ok(s) => s,
                    Err(e) => return Err(e),
                };
                let ghost acc_pre = acc@;
                if acc.len() > 0 {
                    acc.push(46);
                }
                let ghost acc_mid = acc@;
                let mut k: usize = 0;
                while k < len as usize
                    invariant
                        k <= len as usize,
                        label@ == buf0.subrange(pos as int + 1, pos as int + 1 + len as int),
                        label@.len() == len as int,
                        acc@ == acc_mid + lower_seq(label@.take(k as int)),
                    decreases len as int - k,
                {
                    acc.push(lower(label[k]));
                    proof {
                        assert(lower_seq(label@.take(k as int)).push(lower_byte(label@[k as int]))
                            =~= lower_seq(label@.take(k as int + 1)));
                    }
                    k = k + 1;
                }
                proof {
                    assert(label@.take(len as int) =~= label@);
                    assert(acc@ == acc_mid + lower_seq(label@));
                    let low = lower_seq(buf0.subrange(pos as int + 1, pos as int + 1 + len as int));
                    assert(low.len() == len as int);
                    if acc_pre.len() == 0 {
                        assert(acc@ =~= join_names(acc_pre, low));
                    } else {
                        assert(acc@ =~= acc_pre + seq![46u8] + low);
                    }
                    assert(acc@ == join_names(acc_pre, low));
                }
                pos = pos + 1 + len as usize;
                proof {
                    let low = lower_seq(buf0.subrange(pos as int - len as int, pos as int));
                    match name_walk(buf0, pos as int, jumps as int) {
                        Ok(res3) => {
                            lemma_join_assoc(acc_pre, low, res3.0);
                        },
                        Err(e) => {},
                    }
                }
            }
        }
    }
}

/// A domain name as the data model stores it: labels of 1 to 63 bytes,
/// already lowercase.
pub open spec fn wf_name(n: Seq<u8>) -> bool {
    valid_name(n) && lower_seq(n) == n
}

/// Name round-trip: wherever the uncompressed encoding of a well-formed
/// name sits in a frame, decoding from its start yields the name lowercased
/// and resumes just past its closing zero byte.
pub proof fn lemma_name_roundtrip(buf: Seq<u8>, p: int, n: Seq<u8>)
    requires
        buf.len() == 512,
        valid_name(n),
        0 <= p,
        p + enc_name(n).len() <= 512,
        buf.subrange(p, p + enc_name(n).len()) == enc_name(n),
    ensures
        name_walk(buf, p, 0) == Ok::<(Seq<u8>, int), DnsError>(
            (lower_seq(n), p + enc_name(n).len()),
        ),
    decreases n.len(),
{
    lemma_first_dot(n);
    lemma_enc_name_len(n);
    let d = first_dot(n) as int;
    let enc = enc_name(n);
    let len = enc.len() as int;
    let lb = buf[p];
    assert(lb == enc[0]) by {
        assert(buf.subrange(p, p + len)[0] == buf[p]);
    }
    assert(1 <= lb <= 63);
    assert(!is_pointer(lb) && lb != 0) by (bit_vector)
        requires
            1 <= lb <= 63,
    ;
    assert(!is_pointer(0u8)) by (bit_vector);
    if d >= n.len() {
        // a single label followed by the closing zero byte
        assert(d == n.len());
        assert(lb as int == n.len());
        assert(buf.subrange(p + 1, p + 1 + (lb as int)) =~= n) by {
            assert forall|k: int| 0 <= k < n.len() implies buf[p + 1 + k] == n[k] by {
                assert(buf.subrange(p, p + len)[1 + k] == buf[p + 1 + k]);
            }
        }
        assert(buf[p + 1 + (lb as int)] == 0) by {
            assert(buf.subrange(p, p + len)[len - 1] == buf[p + len - 1]);
        }
        assert(name_walk(buf, p + 1 + (lb as int), 0) == Ok::<(Seq<u8>, int), DnsError>(
            (Seq::empty(), p + len),
        ));
        assert(name_walk(buf, p, 0) == Ok::<(Seq<u8>, int), DnsError>((lower_seq(n), p + len)));
    } else {
        let rest = n.skip(d + 1);
        let enc2 = enc_name(rest);
        lemma_enc_name_len(rest);
        assert(lb as int == d);
        assert(len == 1 + d + enc2.len());
        assert(buf.subrange(p + 1, p + 1 + d) =~= n.take(d)) by {
            assert forall|k: int| 0 <= k < d implies buf[p + 1 + k] == n[k] by {
                assert(buf.subrange(p, p + len)[1 + k] == buf[p + 1 + k]);
            }
        }
        assert(buf.subrange(p + 1 + d, p + 1 + d + enc2.len()) =~= enc2) by {
            assert forall|k: int| 0 <= k < enc2.len() implies buf[p + 1 + d + k] == enc2[k] by {
                assert(buf.subrange(p, p + len)[1 + d + k] == buf[p + 1 + d + k]);
            }
        }
        assert(valid_name(rest));
        lemma_name_roundtrip(buf, p + 1 + d, rest);
        lemma_first_dot(rest);
        assert(first_dot(rest) >= 1);
        assert(rest.len() >= 1);
        assert(lower_seq(n) =~= lower_seq(n.take(d)) + seq![46u8] + lower_seq(rest)) by {
            assert(n[d] == 46);
        }
        assert(name_walk(buf, p, 0) == Ok::<(Seq<u8>, int), DnsError>((lower_seq(n), p + len)));
    }
}

/// A name whose wire form at `pos` lies fully in bounds and uses no
/// compression pointer.
pub open spec fn plain_name_at(buf: Seq<u8>, pos: int) -> bool
    decreases 512 - pos,
{
    if pos < 0 || pos >= 512 {
        false
    } else {
        let len = buf[pos];
        if is_pointer(len) {
            false
        } else if len == 0 {
            true
        } else if pos + 1 + (len as int) >= 512 {
            false
        } else {
            plain_name_at(buf, pos + 1 + (len as int))
        }
    }
}

/// Decoding a pointer-free name succeeds and does not depend on how many
/// jumps the walk has already taken.
pub proof fn lemma_plain_walk_budget(buf: Seq<u8>, pos: int, jumps: int)
    requires
        plain_name_at(buf, pos),
        0 <= jumps <= 5,
    ensures
        name_walk(buf, pos, jumps) == name_walk(buf, pos, 0),
        name_walk(buf, pos, jumps) is Ok,
    decreases 512 - pos,
{
    let len = buf[pos];
    if !is_pointer(len) && len != 0 {
        lemma_plain_walk_budget(buf, pos + 1 + (len as int), jumps);
        lemma_plain_walk_budget(buf, pos + 1 + (len as int), 0);
    }
}

/// Compression acceptance: a pointer to a pointer-free name decodes to the
/// same string as that name, and the reader resumes just past the two
/// pointer bytes.
pub proof fn lemma_compression_pointer(buf: Seq<u8>, p: int)
    requires
        buf.len() == 512,
        0 <= p,
        p + 1 < 512,
        is_pointer(buf[p]),
        plain_name_at(buf, pointer_target(buf[p], buf[p + 1])),
    ensures
        name_walk(buf, p, 0) is Ok,
        name_walk(buf, pointer_target(buf[p], buf[p + 1]), 0) is Ok,
        name_walk(buf, p, 0)->Ok_0.0 == name_walk(
            buf,
            pointer_target(buf[p], buf[p + 1]),
            0,
        )->Ok_0.0,
        name_walk(buf, p, 0)->Ok_0.1 == p + 2,
{
    lemma_plain_walk_budget(buf, pointer_target(buf[p], buf[p + 1]), 1);
}

/// A pointer that names its own position never terminates and is cut off
/// by the jump limit, whatever the remaining budget.
pub proof fn lemma_self_pointer_loops(buf: Seq<u8>, p: int, jumps: int)
    requires
        0 <= p,
        p + 1 < 512,
        is_pointer(buf[p]),
        pointer_target(buf[p], buf[p + 1]) == p,
        0 <= jumps,
    ensures
        name_walk(buf, p, jumps) == Err::<(Seq<u8>, int), DnsError>(DnsError::PointerLoop),
    decreases 6 - jumps,
{
    if jumps <= 5 {
        lemma_self_pointer_loops(buf, p, jumps + 1);
    }
}

} // verus!
