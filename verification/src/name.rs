//! DNS name coding: length-prefixed labels with RFC 1035 back-pointer
//! compression on read, and uncompressed label emission on write.
//!
//! A name is a dotted byte string (`b"ads.example"`).  The decoder
//! follows compression pointers, caps the number of hops so a pointer
//! cycle fails instead of looping, and lower-cases ASCII letters.  The
//! encoder refuses labels longer than 63 bytes and never emits
//! pointers.

use vstd::prelude::*;
use crate::packet::{BytePacketBuffer, DnsError, PACKET_SIZE, splice, lemma_splice_empty, lemma_splice_one, lemma_splice_append};

verus! {

/// The byte value of `'.'`, the label separator of a dotted name.
pub const DOT: u8 = 46;

/// Longest label the encoder accepts.
pub const MAX_LABEL_LEN: usize = 63;

/// Cap on compression-pointer hops followed by the decoder; a chain
/// longer than this (in particular a cycle) fails with `InvalidInput`.
pub const MAX_JUMPS: usize = 32;

/// ASCII lower-casing of one byte; anything but `A`..=`Z` is kept.
pub open spec fn lower_byte(b: u8) -> u8 {
    if 65 <= b <= 90 {
        (b + 32) as u8
    } else {
        b
    }
}

/// ASCII lower-casing of a byte string.
pub open spec fn lower_bytes(s: Seq<u8>) -> Seq<u8> {
    Seq::new(s.len(), |i: int| lower_byte(s[i]))
}

/// The offset a compression pointer encodes: the low six bits of the
/// first byte and all of the second, big-endian.
pub open spec fn jump_target(len: u8, b2: u8) -> u16 {
    (((len as u16) ^ 0xc0) << 8) | (b2 as u16)
}

/// Joins one leading label onto an already-joined tail.
pub open spec fn join_label(label: Seq<u8>, rest: Seq<u8>) -> Seq<u8> {
    if rest.len() == 0 {
        label
    } else {
        label + seq![DOT] + rest
    }
}

/// The name the decoder reads from `buf` at `pos` with `jumps` pointer
/// hops still allowed, together with the position just past the name's
/// first pointer or terminator — where the cursor lands.  `None` is a
/// decode failure: out-of-bounds access or too many hops.
pub open spec fn parse_qname(buf: Seq<u8>, pos: int, jumps: nat) -> Option<(Seq<u8>, int)>
    decreases jumps, (if pos <= buf.len() { buf.len() - pos } else { 0int }),
{
    if pos < 0 || pos >= buf.len() {
        None
    } else {
        let len = buf[pos];
        if len & 0xc0 == 0xc0 {
            if jumps == 0 {
                None
            } else if pos + 1 >= buf.len() {
                None
            } else {
                match parse_qname(buf, jump_target(len, buf[pos + 1]) as int, (jumps - 1) as nat) {
                    Some((name, _)) => Some((name, pos + 2)),
                    None => None,
                }
            }
        } else if len == 0 {
            Some((Seq::empty(), pos + 1))
        } else if pos + 1 + len > buf.len() {
            None
        } else {
            match parse_qname(buf, pos + 1 + len, jumps) {
                Some((rest, end)) => Some(
                    (join_label(lower_bytes(buf.subrange(pos + 1, pos + 1 + len)), rest), end),
                ),
                None => None,
            }
        }
    }
}

/// The labels of a dotted name: the segments between `.` bytes, in
/// order, empty segments included.  Never empty; splitting the empty
/// name gives one empty label.
pub open spec fn dot_split(s: Seq<u8>) -> Seq<Seq<u8>>
    decreases s.len(),
{
    if s.len() == 0 {
        seq![Seq::empty()]
    } else if s[0] == DOT {
        seq![Seq::<u8>::empty()] + dot_split(s.drop_first())
    } else {
        let r = dot_split(s.drop_first());
        r.update(0, seq![s[0]] + r[0])
    }
}

/// Shape facts about splitting: the label list is never empty, a name
/// holding a dot splits into at least two labels, and a name ending in
/// a dot ends in an empty label.
pub proof fn lemma_dot_split_shape(s: Seq<u8>)
    ensures
        dot_split(s).len() >= 1,
        (exists|i: int| 0 <= i < s.len() && s[i] == DOT) ==> dot_split(s).len() >= 2,
        s.len() >= 1 && s[s.len() - 1] == DOT ==> dot_split(s)[dot_split(s).len() - 1].len() == 0,
    decreases s.len(),
{
    if s.len() == 0 {
    } else {
        let t = s.drop_first();
        lemma_dot_split_shape(t);
        if s[0] == DOT {
            if s.len() >= 2 && s[s.len() - 1] == DOT {
                assert(t[t.len() - 1] == DOT);
            }
        } else {
            let r = dot_split(t);
            if exists|i: int| 0 <= i < s.len() && s[i] == DOT {
                let i = choose|i: int| 0 <= i < s.len() && s[i] == DOT;
                assert(t[i - 1] == DOT);
            }
            if s[s.len() - 1] == DOT {
                assert(t[t.len() - 1] == DOT);
                assert(r.len() >= 2);
            }
        }
    }
}

/// Joining a label list back into a dotted name.
pub open spec fn join_all(ls: Seq<Seq<u8>>) -> Seq<u8>
    decreases ls.len(),
{
    if ls.len() == 0 {
        Seq::empty()
    } else {
        join_label(ls[0], join_all(ls.drop_first()))
    }
}

/// Prepending bytes to the first label prepends them to the join.
pub proof fn lemma_join_label_prefix(x: Seq<u8>, a: Seq<u8>, b: Seq<u8>)
    ensures
        join_label(x + a, b) == x + join_label(a, b),
{
    if b.len() == 0 {
        assert(join_label(x + a, b) =~= x + join_label(a, b));
    } else {
        assert(join_label(x + a, b) =~= x + join_label(a, b));
    }
}

/// Splitting a name on dots and joining the labels again gives the
/// name back, as long as the name does not end in a dot (a trailing
/// empty label is dropped by the join).
pub proof fn lemma_join_split(s: Seq<u8>)
    requires
        s.len() == 0 || s[s.len() - 1] != DOT,
    ensures
        join_all(dot_split(s)) == s,
    decreases s.len(),
{
    if s.len() == 0 {
        let ls = dot_split(s);
        assert(ls == seq![Seq::<u8>::empty()]);
        assert(ls.drop_first() =~= Seq::<Seq<u8>>::empty());
        assert(join_all(ls.drop_first()) == Seq::<u8>::empty());
        assert(join_all(ls) == join_label(ls[0], join_all(ls.drop_first())));
        assert(join_all(dot_split(s)) =~= s);
    } else {
        let t = s.drop_first();
        if s[0] == DOT {
            assert(t.len() >= 1 && t[t.len() - 1] != DOT);
            lemma_join_split(t);
            let tail = dot_split(t);
            lemma_dot_split_shape(t);
            let whole = seq![Seq::<u8>::empty()] + tail;
            assert(whole.drop_first() =~= tail);
            assert(whole[0] == Seq::<u8>::empty());
            assert(join_all(whole) == join_label(Seq::<u8>::empty(), join_all(tail)));
            // the tail join is the nonempty suffix after the leading dot
            assert(join_all(tail) == t);
            assert(t.len() >= 1);
            assert(join_label(Seq::<u8>::empty(), t) =~= seq![DOT] + t);
            assert(seq![DOT] + t =~= s);
        } else {
            if t.len() >= 1 {
                assert(t[t.len() - 1] == s[s.len() - 1]);
            }
            lemma_join_split(t);
            lemma_dot_split_shape(t);
            let r = dot_split(t);
            let r2 = r.update(0, seq![s[0]] + r[0]);
            assert(dot_split(s) == r2);
            assert(r2.drop_first() =~= r.drop_first());
            assert(r2[0] == seq![s[0]] + r[0]);
            assert(join_all(r2) == join_label(seq![s[0]] + r[0], join_all(r2.drop_first())));
            lemma_join_label_prefix(seq![s[0]], r[0], join_all(r.drop_first()));
            assert(join_all(r2) == seq![s[0]] + join_label(r[0], join_all(r.drop_first())));
            assert(join_all(r) == join_label(r[0], join_all(r.drop_first())));
            assert(seq![s[0]] + join_all(r) =~= s);
        }
    }
}

/// Where the first `.` of `s` stands, as found by a left-to-right scan:
/// if no byte of `s.take(k)` is a dot and `s[k]` is one (or `k` is the
/// length), splitting takes `s.take(k)` as the first label.
pub proof fn lemma_dot_split_first(s: Seq<u8>, k: int)
    requires
        0 <= k <= s.len(),
        forall|i: int| 0 <= i < k ==> s[i] != DOT,
        k == s.len() || s[k] == DOT,
    ensures
        k == s.len() ==> dot_split(s) == seq![s],
        k < s.len() ==> dot_split(s) == seq![s.take(k)] + dot_split(s.skip(k + 1)),
    decreases k,
{
    if k == 0 {
        if s.len() == 0 {
            assert(dot_split(s) =~~= seq![s]);
        } else {
            assert(s[0] == DOT);
            assert(s.take(0) =~= Seq::<u8>::empty());
            assert(s.skip(1) =~= s.drop_first());
            assert(dot_split(s) =~= seq![s.take(0)] + dot_split(s.skip(1)));
        }
    } else {
        let t = s.drop_first();
        assert(forall|i: int| 0 <= i < k - 1 ==> t[i] != DOT);
        lemma_dot_split_first(t, k - 1);
        let r = dot_split(t);
        lemma_dot_split_shape(t);
        if k == s.len() {
            assert(r == seq![t]);
            assert(r[0] == t);
            assert(dot_split(s) == r.update(0, seq![s[0]] + r[0]));
            assert(seq![s[0]] + t =~= s);
            assert(dot_split(s) =~= seq![s]);
        } else {
            assert(r == seq![t.take(k - 1)] + dot_split(t.skip(k)));
            assert(r[0] == t.take(k - 1));
            assert(seq![s[0]] + t.take(k - 1) =~= s.take(k));
            assert(t.skip(k) =~= s.skip(k + 1));
            assert(dot_split(s) =~= seq![s.take(k)] + dot_split(s.skip(k + 1)));
        }
    }
}

/// The wire form of a label list without the closing zero byte: each
/// label prefixed by its length.
pub open spec fn labels_open(ls: Seq<Seq<u8>>) -> Seq<u8>
    decreases ls.len(),
{
    if ls.len() == 0 {
        Seq::empty()
    } else {
        seq![ls[0].len() as u8] + ls[0] + labels_open(ls.drop_first())
    }
}

/// The full wire form of a label list: the labels, then the
/// zero-length terminating label.
pub open spec fn labels_wire(ls: Seq<Seq<u8>>) -> Seq<u8> {
    labels_open(ls) + seq![0u8]
}

/// The wire form of a dotted name as the encoder emits it: no
/// compression pointers.
pub open spec fn qname_bytes(name: Seq<u8>) -> Seq<u8> {
    labels_wire(dot_split(name))
}

/// A name the encoder accepts: every label fits in six bits of length.
pub open spec fn qname_ok(name: Seq<u8>) -> bool {
    forall|i: int| 0 <= i < dot_split(name).len() ==> #[trigger] dot_split(name)[i].len()
        <= MAX_LABEL_LEN
}

/// A well-formed name, the class the codec round-trips: labels are
/// nonempty and at most 63 bytes, and no label byte is an upper-case
/// ASCII letter (the decoder lower-cases, so only such names survive).
pub open spec fn qname_wf(name: Seq<u8>) -> bool {
    &&& forall|i: int| 0 <= i < dot_split(name).len() ==> 1 <= #[trigger] dot_split(
        name,
    )[i].len() <= MAX_LABEL_LEN
    &&& forall|i: int, j: int|
        0 <= i < dot_split(name).len() && 0 <= j < dot_split(name)[i].len() ==> !(65
            <= #[trigger] dot_split(name)[i][j] <= 90)
}

/// The open wire form distributes over list concatenation.
pub proof fn lemma_labels_open_concat(a: Seq<Seq<u8>>, b: Seq<Seq<u8>>)
    ensures
        labels_open(a + b) == labels_open(a) + labels_open(b),
    decreases a.len(),
{
    if a.len() == 0 {
        assert(a + b =~= b);
        assert(labels_open(a + b) =~= labels_open(a) + labels_open(b));
    } else {
        assert((a + b).drop_first() =~= a.drop_first() + b);
        lemma_labels_open_concat(a.drop_first(), b);
        assert(labels_open(a + b) =~= labels_open(a) + labels_open(b));
    }
}

/// Decoding a pointer-free wire-form label list placed at `pos` yields
/// exactly the joined labels and lands just past the terminator,
/// whatever the rest of the buffer holds and whatever the hop budget.
pub proof fn lemma_labels_parse(buf: Seq<u8>, pos: int, ls: Seq<Seq<u8>>, jumps: nat)
    requires
        forall|i: int| 0 <= i < ls.len() ==> 1 <= #[trigger] ls[i].len() <= MAX_LABEL_LEN,
        forall|i: int, j: int|
            0 <= i < ls.len() && 0 <= j < ls[i].len() ==> !(65 <= #[trigger] ls[i][j] <= 90),
        0 <= pos,
        pos + labels_wire(ls).len() <= buf.len(),
        buf.subrange(pos, pos + labels_wire(ls).len()) == labels_wire(ls),
    ensures
        parse_qname(buf, pos, jumps) == Some((join_all(ls), pos + labels_wire(ls).len())),
    decreases ls.len(),
{
    let wire = labels_wire(ls);
    assert(buf[pos] == wire[0]) by {
        assert(buf.subrange(pos, pos + wire.len())[0] == buf[pos]);
    }
    if ls.len() == 0 {
        assert(wire =~= seq![0u8]);
        assert(buf[pos] == 0u8);
        assert(0u8 & 0xc0 != 0xc0) by (bit_vector);
        assert(parse_qname(buf, pos, jumps) == Some((Seq::<u8>::empty(), pos + 1)));
        assert(join_all(ls) == Seq::<u8>::empty());
    } else {
        let l0 = ls[0];
        let rest = ls.drop_first();
        let rest_wire = labels_wire(rest);
        assert(wire =~= seq![l0.len() as u8] + l0 + rest_wire);
        let len = l0.len() as u8;
        assert(buf[pos] == len);
        assert(len <= 63 ==> len & 0xc0 != 0xc0) by (bit_vector);
        assert(len != 0);
        let sub = buf.subrange(pos, pos + wire.len());
        assert(sub == wire);
        assert(pos + 1 + len < buf.len());
        // the label bytes stand right after the length byte
        assert(buf.subrange(pos + 1, pos + 1 + len) =~= l0) by {
            assert forall|j: int|
                0 <= j < l0.len() implies buf.subrange(pos + 1, pos + 1 + len)[j] == l0[j] by {
                assert(buf.subrange(pos + 1, pos + 1 + len)[j] == buf[pos + 1 + j]);
                assert(sub[1 + j] == buf[pos + (1 + j)]);
                assert((seq![l0.len() as u8] + l0 + rest_wire)[1 + j] == l0[j]);
            }
        }
        assert(lower_bytes(l0) =~= l0);
        // the remaining labels stand right after this one
        assert(buf.subrange(pos + 1 + len, pos + 1 + len + rest_wire.len()) =~= rest_wire) by {
            assert forall|j: int|
                0 <= j < rest_wire.len() implies buf.subrange(
                pos + 1 + len,
                pos + 1 + len + rest_wire.len(),
            )[j] == rest_wire[j] by {
                assert(buf.subrange(pos + 1 + len, pos + 1 + len + rest_wire.len())[j] == buf[pos + 1
                    + len + j]);
                assert(sub[1 + len + j] == buf[pos + (1 + len + j)]);
                assert((seq![l0.len() as u8] + l0 + rest_wire)[1 + len + j] == rest_wire[j]);
            }
        }
        lemma_labels_parse(buf, pos + 1 + len, rest, jumps);
        assert(parse_qname(buf, pos + 1 + len as int, jumps) == Some(
            (join_all(rest), pos + 1 + len + rest_wire.len()),
        ));
        assert(parse_qname(buf, pos, jumps) == Some(
            (join_label(l0, join_all(rest)), pos + wire.len()),
        ));
        assert(join_all(ls) == join_label(l0, join_all(rest)));
    }
}

/// Law: the encoder's output decodes back to the same name.  For any
/// well-formed name whose wire form stands at `pos`, decoding at `pos`
/// yields that name and lands just past its terminator, whatever the
/// rest of the buffer holds.
pub proof fn lemma_qname_round_trip(buf: Seq<u8>, pos: int, name: Seq<u8>, jumps: nat)
    requires
        qname_wf(name),
        0 <= pos,
        pos + qname_bytes(name).len() <= buf.len(),
        buf.subrange(pos, pos + qname_bytes(name).len()) == qname_bytes(name),
    ensures
        parse_qname(buf, pos, jumps) == Some((name, pos + qname_bytes(name).len())),
{
    let ls = dot_split(name);
    lemma_dot_split_shape(name);
    if name.len() >= 1 && name[name.len() - 1] == DOT {
        assert(ls[ls.len() - 1].len() == 0);
        assert(false);
    }
    if name.len() == 0 {
        assert(ls[0].len() == 0);
        assert(false);
    }
    lemma_join_split(name);
    lemma_labels_parse(buf, pos, ls, jumps);
}

impl BytePacketBuffer {
    /// Reads a possibly compressed name at the cursor, appending its
    /// dotted, ASCII-lower-cased form to `outstr`.  Only the first
    /// pointer hop advances the cursor; at most `MAX_JUMPS` hops are
    /// followed, so a pointer cycle fails instead of looping.  On
    /// failure `outstr` may hold a partial name.
    #[verifier::loop_isolation(false)]
    pub fn read_qname(&mut self, outstr: &mut Vec<u8>) -> (r: Result<(), DnsError>)
        requires
            old(self).wf(),
        ensures
            final(self).wf(),
            final(self).buf@ == old(self).buf@,
            match parse_qname(old(self).buf@, old(self).pos as int, MAX_JUMPS as nat) {
                Some(res) => r is Ok && final(outstr)@ == old(outstr)@ + res.0
                    && final(self).pos as int == res.1,
                None => r == Err::<(), DnsError>(DnsError::InvalidInput),
            },
    {
        let ghost buf0 = self.buf@;
        let ghost pos0 = self.pos;
        let ghost out0 = outstr@;
        let ghost mut acc: Seq<u8> = Seq::empty();
        let mut pos = self.pos();
        let mut jumped = false;
        let mut jumps: usize = 0;
        let mut first = true;
        loop
            invariant
                self.wf(),
                self.buf@ == buf0,
                jumps <= MAX_JUMPS,
                !jumped ==> self.pos == pos0,
                outstr@ == out0 + acc,
                first ==> acc == Seq::<u8>::empty(),
                match parse_qname(buf0, pos as int, (MAX_JUMPS - jumps) as nat) {
                    Some(res) => parse_qname(buf0, pos0 as int, MAX_JUMPS as nat) == Some(
                        (
                            (if first {
                                res.0
                            } else {
                                join_label(acc, res.0)
                            }),
                            (if jumped {
                                self.pos as int
                            } else {
                                res.1
                            }),
                        ),
                    ),
                    None => parse_qname(buf0, pos0 as int, MAX_JUMPS as nat) is None,
                },
            decreases
                    MAX_JUMPS - jumps,
                    (if pos <= PACKET_SIZE {
                        PACKET_SIZE - pos
                    } else {
                        0int
                    }),
        {
            let len = match self.get(pos) {
                Ok(l) => l,
                Err(e) => {
                    return Err(e);
                },
            };
            if len & 0xc0 == 0xc0 {
                if jumps >= MAX_JUMPS {
                    return Err(DnsError::InvalidInput);
                }
                if !jumped {
                    let _ = self.seek(pos + 2);
                }
                let b2 = match self.get(pos + 1) {
                    Ok(b) => b,
                    Err(e) => {
                        return Err(e);
                    },
                };
                let offset = (((len as u16) ^ 0xc0) << 8) | (b2 as u16);
                proof {
                    assert(offset == jump_target(len, buf0[pos + 1]));
                }
                pos = offset as usize;
                jumped = true;
                jumps = jumps + 1;
            } else {
                pos = pos + 1;
                if len == 0 {
                    if !jumped {
                        let _ = self.seek(pos);
                    }
                    proof {
                        let inner = parse_qname(buf0, pos - 1, (MAX_JUMPS - jumps) as nat);
                        assert(inner == Some((Seq::<u8>::empty(), pos as int)));
                        assert(join_label(acc, Seq::<u8>::empty()) == acc);
                    }
                    return Ok(());
                }
                let label = match self.get_range(pos, len as usize) {
                    Ok(l) => l,
                    Err(e) => {
                        return Err(e);
                    },
                };
                let ghost acc_old = acc;
                let ghost first_old = first;
                if !first {
                    outstr.push(DOT);
                }
                proof {
                    acc = if first_old {
                        lower_bytes(label@)
                    } else {
                        acc_old + seq![DOT] + lower_bytes(label@)
                    };
                }
                let mut k: usize = 0;
                let len_us = len as usize;
                while k < len_us
                    invariant
                        k <= len_us,
                        len_us == label@.len(),
                        outstr@ == out0 + (if first_old {
                            lower_bytes(label@).take(k as int)
                        } else {
                            acc_old + seq![DOT] + lower_bytes(label@).take(k as int)
                        }),
                    decreases len_us - k,
                {
                    let b = label[k];
                    let lb = if b >= 65 && b <= 90 {
                        b + 32
                    } else {
                        b
                    };
                    outstr.push(lb);
                    k = k + 1;
                    proof {
                        assert(lower_bytes(label@).take(k as int) =~= lower_bytes(label@).take(
                            k - 1,
                        ) + seq![lower_byte(label@[k - 1])]);
                        assert(outstr@ =~= out0 + (if first_old {
                            lower_bytes(label@).take(k as int)
                        } else {
                            acc_old + seq![DOT] + lower_bytes(label@).take(k as int)
                        }));
                    }
                }
                proof {
                    assert(lower_bytes(label@).take(len_us as int) =~= lower_bytes(label@));
                    let lsub = lower_bytes(label@);
                    let rem = parse_qname(buf0, pos + len as int, (MAX_JUMPS - jumps) as nat);
                    if rem is Some {
                        let rest = rem->Some_0.0;
                        // the label just read joins onto whatever follows
                        if first_old {
                            assert(join_label(acc, rest) == join_label(lsub, rest));
                        } else {
                            if rest.len() == 0 {
                                assert(join_label(acc_old + seq![DOT] + lsub, rest) =~= join_label(
                                    acc_old,
                                    join_label(lsub, rest),
                                ));
                            } else {
                                assert(join_label(acc_old + seq![DOT] + lsub, rest) =~= join_label(
                                    acc_old,
                                    join_label(lsub, rest),
                                ));
                            }
                        }
                    }
                }
                first = false;
                pos = pos + len as usize;
            }
        }
    }

    /// Writes a dotted name at the cursor as plain length-prefixed
    /// labels and a zero terminator, without pointer compression.
    /// Succeeds exactly when every label is at most 63 bytes and the
    /// wire form fits in the buffer; a label of 64 or more bytes fails
    /// with `InvalidInput`.  On failure a prefix may already stand in
    /// the buffer.
    #[verifier::loop_isolation(false)]
    #[verifier::rlimit(100)]
    pub fn write_qname(&mut self, qname: &Vec<u8>) -> (r: Result<(), DnsError>)
        requires
            old(self).wf(),
        ensures
            final(self).wf(),
            r is Ok <==> (qname_ok(qname@) && old(self).pos + qname_bytes(qname@).len()
                <= PACKET_SIZE),
            r is Ok ==> final(self).buf@ == splice(
                old(self).buf@,
                old(self).pos as int,
                qname_bytes(qname@),
            ) && final(self).pos == old(self).pos + qname_bytes(qname@).len(),
            r !is Ok ==> r == Err::<(), DnsError>(DnsError::InvalidInput),
    {
        let ghost buf0 = self.buf@;
        let ghost pos0 = self.pos;
        let ghost ls = dot_split(qname@);
        let ghost total = labels_wire(ls).len() as int;
        proof {
            lemma_dot_split_shape(qname@);
        }
        if self.pos >= PACKET_SIZE {
            // even the terminating zero byte has no room
            proof {
                assert(labels_wire(ls).len() >= 1);
            }
            return Err(DnsError::InvalidInput);
        }
        proof {
            assert(qname@.skip(0) =~= qname@);
            assert(ls.skip(0) =~= ls);
            assert(ls.take(0) =~= Seq::<Seq<u8>>::empty());
            assert(labels_open(ls.take(0)) =~= Seq::<u8>::empty());
            lemma_splice_empty(buf0, pos0 as int);
        }
        let mut start: usize = 0;
        let ghost mut j: int = 0;
        loop
            invariant
                self.wf(),
                0 <= j < ls.len(),
                start <= qname@.len(),
                dot_split(qname@.skip(start as int)) == ls.skip(j),
                forall|i: int| 0 <= i < j ==> #[trigger] ls[i].len() <= MAX_LABEL_LEN,
                self.pos == pos0 + labels_open(ls.take(j)).len(),
                pos0 + labels_open(ls.take(j)).len() <= PACKET_SIZE,
                self.buf@ == splice(buf0, pos0 as int, labels_open(ls.take(j))),
            decreases qname@.len() - start,
        {
            // scan to the end of the current label
            let mut end: usize = start;
            while end < qname.len() && qname[end] != 46u8
                invariant
                    start <= end <= qname@.len(),
                    forall|i: int| start <= i < end ==> qname@[i] != DOT,
                decreases qname@.len() - end,
            {
                end = end + 1;
            }
            let ghost rem = qname@.skip(start as int);
            let ghost k = end - start;
            proof {
                assert forall|i: int| 0 <= i < k implies rem[i] != DOT by {
                    assert(rem[i] == qname@[start + i]);
                }
                if k < rem.len() {
                    assert(rem[k as int] == qname@[end as int]);
                }
                lemma_dot_split_first(rem, k as int);
                assert(ls[j] == ls.skip(j)[0]);
                assert(rem.take(k as int) =~= qname@.subrange(start as int, end as int));
                // the total wire length decomposes around label j
                assert(ls =~= ls.take(j) + ls.skip(j));
                lemma_labels_open_concat(ls.take(j), ls.skip(j));
            }
            let label_len = end - start;
            if label_len > MAX_LABEL_LEN {
                proof {
                    assert(dot_split(qname@)[j].len() > MAX_LABEL_LEN);
                }
                return Err(DnsError::InvalidInput);
            }
            let ghost wire_before = labels_open(ls.take(j));
            proof {
                // wire for labels j.. is at least this label plus terminator
                assert(labels_open(ls.skip(j)) =~= seq![ls[j].len() as u8] + ls[j] + labels_open(
                    ls.skip(j).drop_first(),
                ));
                assert(total >= wire_before.len() + 1 + label_len + 1);
            }
            match self.write_u8(label_len as u8) {
                Ok(_) => {},
                Err(e) => {
                    proof {
                        assert(pos0 + total > PACKET_SIZE);
                    }
                    return Err(e);
                },
            }
            proof {
                lemma_splice_one(
                    splice(buf0, pos0 as int, wire_before),
                    pos0 + wire_before.len(),
                    label_len as u8,
                );
                lemma_splice_append(buf0, pos0 as int, wire_before, seq![label_len as u8]);
            }
            let mut kk: usize = start;
            while kk < end
                invariant
                    self.wf(),
                    start <= kk <= end,
                    self.pos == pos0 + wire_before.len() + 1 + (kk - start),
                    pos0 + wire_before.len() + 1 + (kk - start) <= PACKET_SIZE,
                    self.buf@ == splice(
                        buf0,
                        pos0 as int,
                        wire_before + seq![label_len as u8] + qname@.subrange(
                            start as int,
                            kk as int,
                        ),
                    ),
                decreases end - kk,
            {
                match self.write_u8(qname[kk]) {
                    Ok(_) => {},
                    Err(e) => {
                        proof {
                            assert(pos0 + total > PACKET_SIZE);
                        }
                        return Err(e);
                    },
                }
                proof {
                    let prev = wire_before + seq![label_len as u8] + qname@.subrange(
                        start as int,
                        kk as int,
                    );
                    lemma_splice_one(splice(buf0, pos0 as int, prev), pos0 + prev.len(), qname@[kk as int]);
                    lemma_splice_append(buf0, pos0 as int, prev, seq![qname@[kk as int]]);
                    assert(prev + seq![qname@[kk as int]] =~= wire_before + seq![label_len as u8]
                        + qname@.subrange(start as int, kk + 1));
                }
                kk = kk + 1;
            }
            proof {
                // one more label is on the wire
                let lj = seq![ls[j].len() as u8] + ls[j];
                assert(wire_before + seq![label_len as u8] + qname@.subrange(
                    start as int,
                    end as int,
                ) =~= wire_before + lj);
                assert(ls.take(j + 1) =~= ls.take(j) + seq![ls[j]]);
                lemma_labels_open_concat(ls.take(j), seq![ls[j]]);
                assert(seq![ls[j]].drop_first() =~= Seq::<Seq<u8>>::empty());
                assert(labels_open(Seq::<Seq<u8>>::empty()) == Seq::<u8>::empty());
                assert(labels_open(seq![ls[j]]) == seq![ls[j].len() as u8] + ls[j] + labels_open(
                    seq![ls[j]].drop_first(),
                ));
                assert(labels_open(seq![ls[j]]) =~= lj);
                assert(labels_open(ls.take(j + 1)) =~= wire_before + lj);
                j = j + 1;
            }
            if end == qname.len() {
                proof {
                    assert(ls.skip(j - 1) =~= seq![ls[j - 1]]);
                    assert(ls.take(j) =~= ls);
                    assert(labels_wire(ls) =~= labels_open(ls) + seq![0u8]);
                    assert(total == labels_open(ls.take(j)).len() + 1);
                }
                match self.write_u8(0) {
                    Ok(_) => {},
                    Err(e) => {
                        proof {
                            assert(pos0 + total > PACKET_SIZE);
                        }
                        return Err(e);
                    },
                }
                proof {
                    let prev = labels_open(ls.take(j));
                    lemma_splice_one(splice(buf0, pos0 as int, prev), pos0 + prev.len(), 0u8);
                    lemma_splice_append(buf0, pos0 as int, prev, seq![0u8]);
                    assert(prev + seq![0u8] =~= labels_wire(ls));
                    // every label was checked while it was written
                    assert(j == ls.len());
                    assert(qname_ok(qname@));
                }
                return Ok(());
            }
            proof {
                assert(ls.skip(j - 1).drop_first() =~= ls.skip(j));
                assert(rem.skip(k + 1) =~= qname@.skip(end + 1));
                assert(dot_split(qname@.skip(end + 1)) == ls.skip(j));
                lemma_dot_split_shape(qname@.skip(end + 1));
                assert(ls.skip(j).len() >= 1);
            }
            start = end + 1;
        }
    }
}

} // verus!
