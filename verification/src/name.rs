//! Encoding and decoding of domain names on the wire: label-length-prefixed
//! bytes, a zero terminator, and 14-bit backward compression pointers.

use vstd::prelude::*;

use crate::types::DnsError;

verus! {

/// The byte separating labels in a dotted name.
pub const DOT: u8 = 46;

/// The hard ceiling on compression-pointer following, as defense in depth
/// beside the strict-decrease check.
pub const MAX_POINTER_HOPS: u8 = 10;

/// Joins two dotted-name fragments, inserting a separating dot only when
/// both are nonempty.
pub open spec fn spec_join_name(a: Seq<u8>, b: Seq<u8>) -> Seq<u8> {
    if a.len() == 0 {
        b
    } else if b.len() == 0 {
        a
    } else {
        a + seq![DOT] + b
    }
}

/// The 14-bit target of a compression pointer whose two bytes are `b0` and
/// `b1`.
pub open spec fn spec_pointer_target(b0: u8, b1: u8) -> nat {
    ((b0 & 0x3F) as nat) * 256 + b1 as nat
}

/// What decoding a name at `pos` in `buf` yields, with `hops` pointer
/// follows still allowed: the dot-joined name and the offset just past the
/// non-pointer part of the encoding, or the first error met.
pub open spec fn spec_decode_name(buf: Seq<u8>, pos: nat, hops: nat) -> Result<
    (Seq<u8>, nat),
    DnsError,
>
    decreases hops, buf.len() - pos,
{
    if pos >= buf.len() {
        Err(DnsError::TruncatedPacketError)
    } else {
        let b = buf[pos as int];
        if b == 0 {
            Ok((Seq::empty(), pos + 1))
        } else if b & 0xC0 == 0xC0 {
            if pos + 1 >= buf.len() {
                Err(DnsError::TruncatedPacketError)
            } else {
                let target = spec_pointer_target(b, buf[pos as int + 1]);
                if target >= pos || hops == 0 {
                    Err(DnsError::CompressionLoopError)
                } else {
                    match spec_decode_name(buf, target, (hops - 1) as nat) {
                        Ok((nm, _)) => Ok((nm, pos + 2)),
                        Err(e) => Err(e),
                    }
                }
            }
        } else if b & 0xC0 != 0 {
            Err(DnsError::ReservedLabelError)
        } else {
            if pos + 1 + b > buf.len() {
                Err(DnsError::TruncatedPacketError)
            } else {
                let label = buf.subrange(pos as int + 1, pos as int + 1 + b as int);
                match spec_decode_name(buf, pos + 1 + b as nat, hops) {
                    Ok((rest, nxt)) => Ok((spec_join_name(label, rest), nxt)),
                    Err(e) => Err(e),
                }
            }
        }
    }
}

/// The name with one trailing dot removed, if it carries one.
pub open spec fn spec_strip_root_dot(name: Seq<u8>) -> Seq<u8> {
    if name.len() > 0 && name[name.len() - 1] == DOT {
        name.subrange(0, name.len() - 1)
    } else {
        name
    }
}

/// The dot-separated pieces of a byte string; always at least one piece.
pub open spec fn spec_split_labels(s: Seq<u8>) -> Seq<Seq<u8>>
    decreases s.len(),
{
    if s.len() == 0 {
        seq![Seq::<u8>::empty()]
    } else if s[0] == DOT {
        seq![Seq::<u8>::empty()] + spec_split_labels(s.subrange(1, s.len() as int))
    } else {
        let rest = spec_split_labels(s.subrange(1, s.len() as int));
        seq![seq![s[0]] + rest[0]] + rest.subrange(1, rest.len() as int)
    }
}

/// The labels rejoined into a dotted name, one dot between adjacent labels.
pub open spec fn spec_join_labels(ls: Seq<Seq<u8>>) -> Seq<u8>
    decreases ls.len(),
{
    if ls.len() == 0 {
        Seq::empty()
    } else if ls.len() == 1 {
        ls[0]
    } else {
        ls[0] + seq![DOT] + spec_join_labels(ls.subrange(1, ls.len() as int))
    }
}

/// The wire encoding of a sequence of labels: one length byte before each
/// label, then a zero terminator.
pub open spec fn spec_encode_labels(ls: Seq<Seq<u8>>) -> Seq<u8>
    decreases ls.len(),
{
    if ls.len() == 0 {
        seq![0u8]
    } else {
        seq![ls[0].len() as u8] + ls[0] + spec_encode_labels(ls.subrange(1, ls.len() as int))
    }
}

/// Every label carries between 1 and 63 bytes.
pub open spec fn spec_labels_valid(ls: Seq<Seq<u8>>) -> bool {
    forall|i: int| 0 <= i < ls.len() ==> 1 <= (#[trigger] ls[i]).len() <= 63
}

/// The wire encoding of a dotted name, one trailing dot stripped first.
pub open spec fn spec_encode_name(name: Seq<u8>) -> Seq<u8> {
    spec_encode_labels(spec_split_labels(spec_strip_root_dot(name)))
}

/// A name the encoder accepts: every label 1 to 63 bytes long and the whole
/// encoding at most 255 bytes.
pub open spec fn spec_name_valid(name: Seq<u8>) -> bool {
    &&& spec_labels_valid(spec_split_labels(spec_strip_root_dot(name)))
    &&& spec_encode_name(name).len() <= 255
}

/// Splitting yields at least one piece.
proof fn lemma_split_labels_nonempty(s: Seq<u8>)
    ensures
        spec_split_labels(s).len() >= 1,
    decreases s.len(),
{
    if s.len() > 0 {
        lemma_split_labels_nonempty(s.subrange(1, s.len() as int));
    }
}

/// A byte string without dots splits into exactly itself.
proof fn lemma_split_no_dot(s: Seq<u8>)
    requires
        forall|j: int| 0 <= j < s.len() ==> s[j] != DOT,
    ensures
        spec_split_labels(s) == seq![s],
    decreases s.len(),
{
    if s.len() == 0 {
        assert(s =~= Seq::<u8>::empty());
        assert(spec_split_labels(s) =~= seq![s]);
    } else {
        let tail = s.subrange(1, s.len() as int);
        assert forall|j: int| 0 <= j < tail.len() implies tail[j] != DOT by {
            assert(tail[j] == s[j + 1]);
        }
        lemma_split_no_dot(tail);
        let rest = spec_split_labels(tail);
        assert(rest.subrange(1, rest.len() as int) =~= Seq::<Seq<u8>>::empty());
        assert(seq![s[0]] + tail =~= s);
        assert(spec_split_labels(s) =~= seq![s]);
    }
}

/// Splitting at the first dot separates the head label from the split of
/// what follows the dot.
proof fn lemma_split_at_first_dot(s: Seq<u8>, i: int)
    requires
        0 <= i < s.len(),
        s[i] == DOT,
        forall|j: int| 0 <= j < i ==> s[j] != DOT,
    ensures
        spec_split_labels(s) == seq![s.subrange(0, i)] + spec_split_labels(
            s.subrange(i + 1, s.len() as int),
        ),
    decreases i,
{
    let tail = s.subrange(1, s.len() as int);
    if i == 0 {
        assert(s.subrange(0, 0) =~= Seq::<u8>::empty());
        assert(spec_split_labels(s) =~= seq![s.subrange(0, i)] + spec_split_labels(
            s.subrange(i + 1, s.len() as int),
        ));
    } else {
        assert(tail[i - 1] == s[i]);
        assert forall|j: int| 0 <= j < i - 1 implies tail[j] != DOT by {
            assert(tail[j] == s[j + 1]);
        }
        lemma_split_at_first_dot(tail, i - 1);
        let rest = spec_split_labels(tail);
        let after = spec_split_labels(tail.subrange(i, tail.len() as int));
        assert(rest == seq![tail.subrange(0, i - 1)] + after);
        assert(rest[0] == tail.subrange(0, i - 1));
        assert(seq![s[0]] + tail.subrange(0, i - 1) =~= s.subrange(0, i));
        assert(rest.subrange(1, rest.len() as int) =~= after);
        assert(tail.subrange(i, tail.len() as int) =~= s.subrange(i + 1, s.len() as int));
        assert(spec_split_labels(s) =~= seq![s.subrange(0, i)] + spec_split_labels(
            s.subrange(i + 1, s.len() as int),
        ));
    }
}

/// Rejoining the split of a byte string restores it exactly.
proof fn lemma_join_split(s: Seq<u8>)
    ensures
        spec_join_labels(spec_split_labels(s)) == s,
    decreases s.len(),
{
    if s.len() == 0 {
        assert(spec_join_labels(spec_split_labels(s)) =~= s);
    } else {
        let tail = s.subrange(1, s.len() as int);
        lemma_join_split(tail);
        lemma_split_labels_nonempty(tail);
        let rest = spec_split_labels(tail);
        if s[0] == DOT {
            let ss = seq![Seq::<u8>::empty()] + rest;
            assert(spec_split_labels(s) == ss);
            assert(ss.subrange(1, ss.len() as int) =~= rest);
            assert(ss.len() >= 2);
            assert(ss[0] =~= Seq::<u8>::empty());
            assert(spec_join_labels(ss) == ss[0] + seq![DOT] + spec_join_labels(
                ss.subrange(1, ss.len() as int),
            ));
            assert(spec_join_labels(ss.subrange(1, ss.len() as int)) == tail);
            let c = ss[0] + seq![DOT] + tail;
            assert(c =~= s);
            assert(spec_join_labels(ss) == c);
        } else {
            let ss = seq![seq![s[0]] + rest[0]] + rest.subrange(1, rest.len() as int);
            assert(spec_split_labels(s) == ss);
            if rest.len() == 1 {
                assert(spec_join_labels(rest) == rest[0]);
                assert(ss.len() == 1);
                assert(spec_join_labels(ss) == ss[0]);
                assert(ss[0] =~= s);
            } else {
                assert(spec_join_labels(rest) == rest[0] + seq![DOT] + spec_join_labels(
                    rest.subrange(1, rest.len() as int),
                ));
                assert(ss.len() >= 2);
                assert(ss.subrange(1, ss.len() as int) =~= rest.subrange(1, rest.len() as int));
                assert(spec_join_labels(ss) == ss[0] + seq![DOT] + spec_join_labels(
                    ss.subrange(1, ss.len() as int),
                ));
                let jr = spec_join_labels(rest.subrange(1, rest.len() as int));
                assert(tail == rest[0] + seq![DOT] + jr);
                assert(ss[0] + seq![DOT] + jr =~= seq![s[0]] + tail);
                assert(seq![s[0]] + tail =~= s);
                assert(spec_join_labels(ss) == s);
            }
        }
    }
}

/// Decoding starts over the encoding of a valid label sequence reads those
/// labels back, dot-joined, and stops just past the terminator. Holds for
/// any hop budget since the encoding contains no pointers.
proof fn lemma_decode_encoded_labels(buf: Seq<u8>, pos: nat, ls: Seq<Seq<u8>>, hops: nat)
    requires
        spec_labels_valid(ls),
        pos + spec_encode_labels(ls).len() <= buf.len(),
        buf.subrange(pos as int, pos as int + spec_encode_labels(ls).len() as int)
            == spec_encode_labels(ls),
    ensures
        spec_decode_name(buf, pos, hops) == Ok::<(Seq<u8>, nat), DnsError>(
            (spec_join_labels(ls), pos + spec_encode_labels(ls).len()),
        ),
    decreases ls.len(),
{
    let enc = spec_encode_labels(ls);
    let sub = buf.subrange(pos as int, pos as int + enc.len() as int);
    if ls.len() == 0 {
        assert(buf[pos as int] == sub[0]);
        assert(buf[pos as int] == 0);
    } else {
        let l0 = ls[0];
        let tail = ls.subrange(1, ls.len() as int);
        let enc_tail = spec_encode_labels(tail);
        assert(enc == seq![l0.len() as u8] + l0 + enc_tail);
        let b = buf[pos as int];
        assert(b == sub[0]);
        assert(b == l0.len() as u8);
        assert(1 <= l0.len() <= 63);
        assert(b & 0xC0 == 0) by (bit_vector)
            requires
                b < 64,
        ;
        assert(b != 0);
        assert(pos + 1 + b <= buf.len());
        let label = buf.subrange(pos as int + 1, pos as int + 1 + b as int);
        assert forall|i: int| 0 <= i < l0.len() implies label[i] == l0[i] by {
            assert(sub[1 + i] == enc[1 + i]);
            assert(buf[pos as int + 1 + i] == sub[1 + i]);
        }
        assert(label =~= l0);
        let pos2 = pos + 1 + b as nat;
        assert forall|i: int| 0 <= i < tail.len() implies 1 <= (#[trigger] tail[i]).len() <= 63 by {
            assert(tail[i] == ls[i + 1]);
        }
        assert(buf.subrange(pos2 as int, pos2 as int + enc_tail.len() as int) =~= enc_tail) by {
            assert forall|i: int| 0 <= i < enc_tail.len() implies buf.subrange(
                pos2 as int,
                pos2 as int + enc_tail.len() as int,
            )[i] == enc_tail[i] by {
                assert(sub[1 + l0.len() + i] == enc[1 + l0.len() + i]);
                assert(buf[pos as int + 1 + l0.len() + i] == sub[1 + l0.len() + i]);
                assert(enc[1 + l0.len() + i] == enc_tail[i]);
            }
        }
        lemma_decode_encoded_labels(buf, pos2, tail, hops);
        if tail.len() == 0 {
            assert(ls.len() == 1);
            assert(spec_join_name(l0, spec_join_labels(tail)) == spec_join_labels(ls));
        } else {
            assert(tail[0].len() >= 1);
            if tail.len() == 1 {
                assert(spec_join_labels(tail).len() >= 1);
            } else {
                assert(spec_join_labels(tail).len() >= 1);
            }
            assert(spec_join_labels(ls) == ls[0] + seq![DOT] + spec_join_labels(tail));
            assert(spec_join_name(l0, spec_join_labels(tail)) == spec_join_labels(ls));
        }
    }
}

/// Round trip of a name: a well-formed name, encoded and then decoded at
/// offset zero, comes back unchanged, with the cursor just past the
/// terminator.
pub proof fn lemma_name_round_trip(name: Seq<u8>)
    requires
        spec_name_valid(name),
        name.len() == 0 || name[name.len() - 1] != DOT,
    ensures
        spec_decode_name(spec_encode_name(name), 0, MAX_POINTER_HOPS as nat)
            == Ok::<(Seq<u8>, nat), DnsError>((name, spec_encode_name(name).len() as nat)),
{
    let enc = spec_encode_name(name);
    assert(spec_strip_root_dot(name) == name);
    lemma_join_split(name);
    assert(enc.subrange(0, enc.len() as int) =~= enc);
    lemma_decode_encoded_labels(enc, 0, spec_split_labels(name), MAX_POINTER_HOPS as nat);
}

/// A name fragment absorbs an empty fragment on either side.
proof fn lemma_join_name_empty(a: Seq<u8>)
    ensures
        spec_join_name(a, Seq::empty()) == a,
        spec_join_name(Seq::empty(), a) == a,
{
}

/// Joining fragments is associative as long as the middle fragment is
/// nonempty.
proof fn lemma_join_name_assoc(a: Seq<u8>, b: Seq<u8>, c: Seq<u8>)
    requires
        b.len() > 0,
    ensures
        spec_join_name(a, spec_join_name(b, c)) == spec_join_name(spec_join_name(a, b), c),
{
    if a.len() > 0 && c.len() > 0 {
        assert(spec_join_name(a, spec_join_name(b, c)) =~= spec_join_name(
            spec_join_name(a, b),
            c,
        ));
    }
}

/// A decode that succeeds within some hop budget yields the same outcome
/// under any larger budget.
proof fn lemma_decode_hops_monotone(buf: Seq<u8>, pos: nat, h1: nat, h2: nat)
    requires
        h1 <= h2,
        spec_decode_name(buf, pos, h1) is Ok,
    ensures
        spec_decode_name(buf, pos, h2) == spec_decode_name(buf, pos, h1),
    decreases h1, buf.len() - pos,
{
    let b = buf[pos as int];
    if b == 0 {
    } else if b & 0xC0 == 0xC0 {
        let target = spec_pointer_target(b, buf[pos as int + 1]);
        lemma_decode_hops_monotone(buf, target, (h1 - 1) as nat, (h2 - 1) as nat);
    } else {
        lemma_decode_hops_monotone(buf, pos + 1 + b as nat, h1, h2);
    }
}

/// What a compression pointer yields is exactly what decoding its target
/// directly yields: the two occurrences of the name are identical, and the
/// outer cursor resumes just past the two pointer bytes.
pub proof fn lemma_pointer_shares_name(buf: Seq<u8>, pos: nat, hops: nat, nm: Seq<u8>, nxt: nat)
    requires
        pos + 1 < buf.len(),
        buf[pos as int] & 0xC0 == 0xC0,
        spec_decode_name(buf, pos, hops) == Ok::<(Seq<u8>, nat), DnsError>((nm, nxt)),
    ensures
        nxt == pos + 2,
        spec_decode_name(buf, spec_pointer_target(buf[pos as int], buf[pos as int + 1]), hops)
            == Ok::<(Seq<u8>, nat), DnsError>(
            (
                nm,
                spec_decode_name(
                    buf,
                    spec_pointer_target(buf[pos as int], buf[pos as int + 1]),
                    hops,
                )->Ok_0.1,
            ),
        ),
{
    let b = buf[pos as int];
    assert(b != 0) by (bit_vector)
        requires
            b & 0xC0 == 0xC0,
    ;
    let target = spec_pointer_target(b, buf[pos as int + 1]);
    lemma_decode_hops_monotone(buf, target, (hops - 1) as nat, hops);
}

/// A compression pointer whose target equals or exceeds its own offset is
/// rejected as a compression loop.
pub proof fn lemma_pointer_forward_rejected(buf: Seq<u8>, pos: nat, hops: nat)
    requires
        pos + 1 < buf.len(),
        buf[pos as int] & 0xC0 == 0xC0,
        spec_pointer_target(buf[pos as int], buf[pos as int + 1]) >= pos,
    ensures
        spec_decode_name(buf, pos, hops) == Err::<(Seq<u8>, nat), DnsError>(
            DnsError::CompressionLoopError,
        ),
{
    let b = buf[pos as int];
    assert(b != 0) by (bit_vector)
        requires
            b & 0xC0 == 0xC0,
    ;
}

/// A successful decode leaves the outer cursor strictly past where it
/// started and inside the buffer.
pub proof fn lemma_decode_next_bounds(buf: Seq<u8>, pos: nat, hops: nat, nm: Seq<u8>, nxt: nat)
    requires
        spec_decode_name(buf, pos, hops) == Ok::<(Seq<u8>, nat), DnsError>((nm, nxt)),
    ensures
        pos < nxt <= buf.len(),
    decreases hops, buf.len() - pos,
{
    let b = buf[pos as int];
    if b == 0 {
    } else if b & 0xC0 == 0xC0 {
    } else {
        match spec_decode_name(buf, pos + 1 + b as nat, hops) {
            Ok((rest, nxt2)) => {
                lemma_decode_next_bounds(buf, pos + 1 + b as nat, hops, rest, nxt2);
            },
            Err(_) => {},
        }
    }
}

/// Encodes a dotted name into label-length-prefixed bytes with a zero
/// terminator, stripping one trailing dot if present. Rejects a name with
/// an empty label, a label over 63 bytes, or an encoding over 255 bytes.
pub fn make_qname_string(qname: &Vec<u8>) -> (r: Result<Vec<u8>, DnsError>)
    ensures
        match r {
            Ok(v) => spec_name_valid(qname@) && v@ == spec_encode_name(qname@),
            Err(e) => !spec_name_valid(qname@) && e == DnsError::EncodingError,
        },
{
    let mut end: usize = qname.len();
    if end > 0 && qname[end - 1] == DOT {
        end = end - 1;
    }
    let ghost stripped = spec_strip_root_dot(qname@);
    proof {
        assert(stripped =~= qname@.subrange(0, end as int));
    }
    let ghost ls = spec_split_labels(stripped);
    let mut out: Vec<u8> = Vec::new();
    let mut start: usize = 0;
    let ghost mut done: Seq<Seq<u8>> = Seq::empty();
    proof {
        assert(stripped.subrange(0, end as int) =~= stripped);
        assert(done + spec_split_labels(stripped.subrange(start as int, end as int)) =~= ls);
        assert(out@ + spec_encode_labels(
            spec_split_labels(stripped.subrange(start as int, end as int)),
        ) =~= spec_encode_labels(ls));
    }
    loop
        invariant
            start <= end <= qname.len(),
            stripped == qname@.subrange(0, end as int),
            stripped == spec_strip_root_dot(qname@),
            ls == spec_split_labels(stripped),
            ls == done + spec_split_labels(stripped.subrange(start as int, end as int)),
            spec_encode_labels(ls) == out@ + spec_encode_labels(
                spec_split_labels(stripped.subrange(start as int, end as int)),
            ),
            forall|i: int| 0 <= i < done.len() ==> 1 <= (#[trigger] done[i]).len() <= 63,
        decreases end - start,
    {
        let mut j = start;
        while j < end && qname[j] != DOT
            invariant
                start <= j <= end <= qname.len(),
                forall|k: int| start <= k < j ==> qname@[k] != DOT,
            decreases end - j,
        {
            j = j + 1;
        }
        let ghost suf = stripped.subrange(start as int, end as int);
        let ghost split_suf = spec_split_labels(suf);
        let ghost label = qname@.subrange(start as int, j as int);
        proof {
            assert forall|k: int| 0 <= k < (j - start) implies suf[k] != DOT by {
                assert(suf[k] == qname@[start + k]);
            }
            if j < end {
                assert(suf[(j - start) as int] == qname@[j as int]);
                lemma_split_at_first_dot(suf, (j - start) as int);
                assert(suf.subrange(0, (j - start) as int) =~= label);
            } else {
                lemma_split_no_dot(suf);
                assert(suf =~= label);
                assert(split_suf == seq![label]);
            }
            assert(split_suf[0] == label);
            assert(split_suf.len() >= 1);
        }
        let lab_len = j - start;
        if lab_len < 1 || lab_len > 63 {
            proof {
                assert(ls[done.len() as int] == label);
                assert(!spec_labels_valid(ls));
            }
            return Err(DnsError::EncodingError);
        }
        let ghost out_before = out@;
        out.push(lab_len as u8);
        let mut t = start;
        while t < j
            invariant
                start <= t <= j <= end <= qname.len(),
                1 <= j - start <= 63,
                out@ == out_before + seq![(j - start) as u8] + qname@.subrange(
                    start as int,
                    t as int,
                ),
            decreases j - t,
        {
            let byte = qname[t];
            out.push(byte);
            proof {
                assert(out@ =~= out_before + seq![(j - start) as u8] + qname@.subrange(
                    start as int,
                    t as int + 1,
                ));
            }
            t = t + 1;
        }
        if j == end {
            out.push(0);
            proof {
                assert(split_suf == seq![label]);
                assert(split_suf.subrange(1, split_suf.len() as int) =~= Seq::<Seq<u8>>::empty());
                assert(spec_encode_labels(Seq::<Seq<u8>>::empty()) == seq![0u8]);
                assert(spec_encode_labels(split_suf) == seq![split_suf[0].len() as u8]
                    + split_suf[0] + spec_encode_labels(
                    split_suf.subrange(1, split_suf.len() as int),
                ));
                assert(spec_encode_labels(split_suf) == seq![label.len() as u8] + label + seq![
                    0u8,
                ]);
                assert(out@ =~= out_before + spec_encode_labels(split_suf));
                assert(out@ == spec_encode_labels(ls));
                assert forall|i: int| 0 <= i < ls.len() implies 1 <= (#[trigger] ls[i]).len()
                    <= 63 by {
                    if i < done.len() {
                        assert(ls[i] == done[i]);
                    } else {
                        assert(ls[i] == label);
                    }
                }
            }
            if out.len() > 255 {
                return Err(DnsError::EncodingError);
            }
            return Ok(out);
        }
        proof {
            let rest_suf = stripped.subrange(j as int + 1, end as int);
            assert(suf.subrange((j - start) + 1, suf.len() as int) =~= rest_suf);
            assert(split_suf == seq![label] + spec_split_labels(rest_suf));
            assert(spec_split_labels(rest_suf) == split_suf.subrange(1, split_suf.len() as int));
            assert(done.push(label) + spec_split_labels(rest_suf) =~= done + split_suf);
            assert(spec_encode_labels(split_suf) == seq![label.len() as u8] + label
                + spec_encode_labels(spec_split_labels(rest_suf))) by {
                assert((seq![label] + spec_split_labels(rest_suf)).subrange(
                    1,
                    (seq![label] + spec_split_labels(rest_suf)).len() as int,
                ) =~= spec_split_labels(rest_suf));
            }
            assert(out@ + spec_encode_labels(spec_split_labels(rest_suf))
                =~= out_before + spec_encode_labels(split_suf));
            done = done.push(label);
        }
        start = j + 1;
    }
}

/// Decodes the name at `offset` in `buf`, following compression pointers.
/// Returns the dot-joined name and the offset immediately following the
/// non-pointer part of the encoding, so a caller resumes correctly even
/// when compression was used.
pub fn decode_name(buf: &Vec<u8>, offset: usize) -> (r: Result<(Vec<u8>, usize), DnsError>)
    ensures
        match r {
            Ok((name, next)) => spec_decode_name(buf@, offset as nat, MAX_POINTER_HOPS as nat)
                == Ok::<(Seq<u8>, nat), DnsError>((name@, next as nat)),
            Err(e) => spec_decode_name(buf@, offset as nat, MAX_POINTER_HOPS as nat)
                == Err::<(Seq<u8>, nat), DnsError>(e),
        },
{
    let ghost full = spec_decode_name(buf@, offset as nat, MAX_POINTER_HOPS as nat);
    if offset >= buf.len() {
        return Err(DnsError::TruncatedPacketError);
    }
    let mut cur: usize = offset;
    let mut hops_left: u8 = MAX_POINTER_HOPS;
    let mut name: Vec<u8> = Vec::new();
    let mut resume: Option<usize> = None;
    loop
        invariant
            cur <= buf.len(),
            resume matches Some(r) ==> r <= buf.len(),
            match spec_decode_name(buf@, cur as nat, hops_left as nat) {
                Ok((nm, nxt)) => full == Ok::<(Seq<u8>, nat), DnsError>(
                    (
                        spec_join_name(name@, nm),
                        match resume {
                            Some(r) => r as nat,
                            None => nxt,
                        },
                    ),
                ),
                Err(e) => full == Err::<(Seq<u8>, nat), DnsError>(e),
            },
            full == spec_decode_name(buf@, offset as nat, MAX_POINTER_HOPS as nat),
        decreases hops_left, buf.len() - cur,
    {
        if cur >= buf.len() {
            return Err(DnsError::TruncatedPacketError);
        }
        let b = buf[cur];
        if b == 0 {
            let next = match resume {
                Some(r) => r,
                None => cur + 1,
            };
            proof {
                lemma_join_name_empty(name@);
            }
            return Ok((name, next));
        }
        if b & 0xC0 == 0xC0 {
            if cur + 1 >= buf.len() {
                return Err(DnsError::TruncatedPacketError);
            }
            let target = ((b & 0x3F) as usize) * 256 + (buf[cur + 1] as usize);
            if target >= cur || hops_left == 0 {
                return Err(DnsError::CompressionLoopError);
            }
            if resume.is_none() {
                resume = Some(cur + 2);
            }
            cur = target;
            hops_left = hops_left - 1;
        } else if b & 0xC0 != 0 {
            return Err(DnsError::ReservedLabelError);
        } else {
            let len = b as usize;
            if len > buf.len() - (cur + 1) {
                return Err(DnsError::TruncatedPacketError);
            }
            let ghost old_name = name@;
            let ghost label = buf@.subrange(cur as int + 1, cur as int + 1 + len as int);
            if name.len() > 0 {
                name.push(DOT);
            }
            let ghost base = name@;
            let mut t: usize = 0;
            while t < len
                invariant
                    t <= len,
                    cur + 1 + len <= buf.len(),
                    name@ == base + buf@.subrange(cur as int + 1, cur as int + 1 + t as int),
                decreases len - t,
            {
                let byte = buf[cur + 1 + t];
                name.push(byte);
                proof {
                    assert(name@ =~= base + buf@.subrange(
                        cur as int + 1,
                        cur as int + 1 + t as int + 1,
                    ));
                }
                t = t + 1;
            }
            proof {
                assert(name@ =~= spec_join_name(old_name, label));
                match spec_decode_name(buf@, cur as nat + 1 + len as nat, hops_left as nat) {
                    Ok((rest, nxt)) => {
                        lemma_join_name_assoc(old_name, label, rest);
                    },
                    Err(_) => {},
                }
            }
            cur = cur + 1 + len;
        }
    }
}

} // verus!
