//! Domain names: length-prefixed label sequences with backward
//! compression pointers.

use vstd::prelude::*;

use crate::errors::{DecodeError, EncodeError};

verus! {

/// How many compression pointers one decode may follow before the chain
/// is rejected as malformed.  Pointer chains on the wire are attacker
/// controlled, so the bound is what guarantees that decoding ends.
pub const MAX_POINTER_HOPS: u32 = 128;

/// A domain name: an ordered sequence of labels, each 1 to 63 bytes of
/// opaque text.  The dot-joined text form `codecrafters.io` corresponds
/// to the two labels `codecrafters` and `io`.
#[derive(Debug, PartialEq, Eq)]
pub struct DomainName {
    /// The labels, in order, without the terminating empty label.
    pub labels: Vec<Vec<u8>>,
}

impl View for DomainName {
    type V = Seq<Seq<u8>>;

    open spec fn view(&self) -> Seq<Seq<u8>> {
        Seq::new(self.labels@.len(), |i: int| self.labels@[i]@)
    }
}

impl Clone for DomainName {
    /// The copy has exactly the labels of the original.
    fn clone(&self) -> (res: Self)
        ensures
            res@ == self@,
    {
        let mut labels: Vec<Vec<u8>> = Vec::new();
        let mut i: usize = 0;
        while i < self.labels.len()
            invariant
                i <= self.labels@.len(),
                labels@.len() == i,
                forall|j: int| 0 <= j < i ==> labels@[j]@ == #[trigger] self.labels@[j]@,
            decreases self.labels@.len() - i,
        {
            labels.push(vstd::slice::slice_to_vec(self.labels[i].as_slice()));
            i = i + 1;
        }
        let res = DomainName { labels };
        assert(res@ =~= self@);
        res
    }
}

/// A label must hold 1 to 63 bytes.
pub open spec fn wf_label(l: Seq<u8>) -> bool {
    1 <= l.len() <= 63
}

/// The encoding of the labels alone: each prefixed by its length byte,
/// without the terminating zero byte.
pub open spec fn spec_labels_bytes(name: Seq<Seq<u8>>) -> Seq<u8>
    decreases name.len(),
{
    if name.len() == 0 {
        Seq::empty()
    } else {
        seq![name[0].len() as u8] + name[0] + spec_labels_bytes(name.skip(1))
    }
}

/// The full encoding of a name: length-prefixed labels, terminated by a
/// zero byte.  No compression pointer is ever emitted.
pub open spec fn spec_name_bytes(name: Seq<Seq<u8>>) -> Seq<u8> {
    spec_labels_bytes(name) + seq![0u8]
}

/// The length invariants of a name: every label holds 1 to 63 bytes, and
/// the whole encoding fits in 255 bytes.
pub open spec fn wf_name(name: Seq<Seq<u8>>) -> bool {
    (forall|i: int| 0 <= i < name.len() ==> wf_label(#[trigger] name[i])) && spec_name_bytes(
        name,
    ).len() <= 255
}

/// The name read from `buf` starting at `pos`, following at most `hops`
/// compression pointers.  The result pairs the labels with the position
/// just past the name's own bytes: past the terminating zero byte, or
/// past the two bytes of the first pointer.  Any length byte or pointer
/// that would reach outside the buffer, and any pointer chain longer
/// than `hops`, is malformed.
pub open spec fn parse_name(buf: Seq<u8>, pos: int, hops: nat) -> Result<
    (Seq<Seq<u8>>, int),
    DecodeError,
>
    decreases hops, buf.len() - pos,
{
    if !(0 <= pos < buf.len()) {
        Err(DecodeError::MalformedName)
    } else {
        let b = buf[pos] as int;
        if b == 0 {
            Ok((Seq::empty(), pos + 1))
        } else if b >= 0xC0 {
            if pos + 2 > buf.len() {
                Err(DecodeError::MalformedName)
            } else {
                let target = (b - 0xC0) * 256 + (buf[pos + 1] as int);
                if target >= buf.len() {
                    Err(DecodeError::MalformedName)
                } else if hops == 0 {
                    Err(DecodeError::MalformedName)
                } else {
                    match parse_name(buf, target, (hops - 1) as nat) {
                        Err(e) => Err(e),
                        Ok((labels, _)) => Ok((labels, pos + 2)),
                    }
                }
            }
        } else {
            if pos + 1 + b > buf.len() {
                Err(DecodeError::MalformedName)
            } else {
                match parse_name(buf, pos + 1 + b, hops) {
                    Err(e) => Err(e),
                    Ok((labels, end)) => Ok(
                        (seq![buf.subrange(pos + 1, pos + 1 + b)] + labels, end),
                    ),
                }
            }
        }
    }
}

impl DomainName {
    /// Decode a name from `buffer` starting at `cursor`.  On success the
    /// result also gives how many bytes the name occupies at `cursor`;
    /// labels reached through a compression pointer do not count.
    pub fn decode(buffer: &[u8], cursor: usize) -> (r: Result<(DomainName, usize), DecodeError>)
        ensures
            match r {
                Ok((name, consumed)) => {
                    &&& parse_name(buffer@, cursor as int, MAX_POINTER_HOPS as nat) == Ok::<
                        _,
                        DecodeError,
                    >((name@, cursor + consumed))
                    &&& cursor + consumed <= buffer@.len()
                    &&& 1 <= consumed
                },
                Err(e) => parse_name(buffer@, cursor as int, MAX_POINTER_HOPS as nat) == Err::<
                    (Seq<Seq<u8>>, int),
                    _,
                >(e),
            },
    {
        match Self::decode_at(buffer, cursor, MAX_POINTER_HOPS) {
            Ok((name, end)) => Ok((name, end - cursor)),
            Err(e) => Err(e),
        }
    }

    /// Decode a name at `pos` with `hops` pointer follows left, returning
    /// the absolute position just past the name's own bytes.
    fn decode_at(buffer: &[u8], pos: usize, hops: u32) -> (r: Result<
        (DomainName, usize),
        DecodeError,
    >)
        ensures
            match r {
                Ok((name, end)) => {
                    &&& parse_name(buffer@, pos as int, hops as nat) == Ok::<_, DecodeError>(
                        (name@, end as int),
                    )
                    &&& pos < end <= buffer@.len()
                },
                Err(e) => parse_name(buffer@, pos as int, hops as nat) == Err::<
                    (Seq<Seq<u8>>, int),
                    _,
                >(e),
            },
        decreases hops, buffer@.len() - pos,
    {
        if pos >= buffer.len() {
            return Err(DecodeError::MalformedName);
        }
        let b = buffer[pos];
        if b == 0 {
            let name = DomainName { labels: Vec::new() };
            assert(name@ =~= Seq::<Seq<u8>>::empty());
            Ok((name, pos + 1))
        } else if b >= 0xC0 {
            if pos + 1 >= buffer.len() {
                return Err(DecodeError::MalformedName);
            }
            let target: usize = ((b - 0xC0) as usize) * 256 + (buffer[pos + 1] as usize);
            if target >= buffer.len() {
                return Err(DecodeError::MalformedName);
            }
            if hops == 0 {
                return Err(DecodeError::MalformedName);
            }
            match Self::decode_at(buffer, target, hops - 1) {
                Err(e) => Err(e),
                Ok((name, _)) => Ok((name, pos + 2)),
            }
        } else {
            let len = b as usize;
            if len > buffer.len() - (pos + 1) {
                return Err(DecodeError::MalformedName);
            }
            let label: Vec<u8> = vstd::slice::slice_to_vec(
                vstd::slice::slice_subrange(buffer, pos + 1, pos + 1 + len),
            );
            match Self::decode_at(buffer, pos + 1 + len, hops) {
                Err(e) => Err(e),
                Ok((mut rest, end)) => {
                    let ghost tail = rest@;
                    rest.labels.insert(0, label);
                    assert(rest@ =~= seq![buffer@.subrange(pos as int + 1, pos + 1 + len)] + tail);
                    Ok((rest, end))
                },
            }
        }
    }

    /// Whether the name satisfies the length invariants.
    pub fn is_well_formed(&self) -> (b: bool)
        ensures
            b == wf_name(self@),
    {
        proof {
            assert(self@.take(0) =~= Seq::<Seq<u8>>::empty());
        }
        let mut total: usize = 1;
        let mut i: usize = 0;
        while i < self.labels.len()
            invariant
                i <= self.labels@.len(),
                total == spec_labels_bytes(self@.take(i as int)).len() + 1,
                total <= 255,
                forall|j: int| 0 <= j < i ==> wf_label(#[trigger] self@[j]),
            decreases self.labels@.len() - i,
        {
            let len = self.labels[i].len();
            if len == 0 || len > 63 {
                assert(!wf_label(self@[i as int]));
                assert(!wf_name(self@));
                return false;
            }
            proof {
                lemma_labels_bytes_snoc(self@, i as int);
            }
            if total + 1 + len > 255 {
                proof {
                    lemma_labels_bytes_prefix_len(self@, i + 1);
                }
                assert(spec_name_bytes(self@).len() > 255);
                return false;
            }
            total = total + 1 + len;
            i = i + 1;
        }
        proof {
            assert(self@.take(i as int) =~= self@);
        }
        true
    }

    /// Append the literal encoding of the name: length-prefixed labels,
    /// terminated by a zero byte.  Names violating the length invariants
    /// are rejected, and the buffer is then left unchanged.
    pub fn write_bytes(&self, buf: &mut Vec<u8>) -> (r: Result<(), EncodeError>)
        ensures
            match r {
                Ok(()) => wf_name(self@) && final(buf)@ == old(buf)@ + spec_name_bytes(self@),
                Err(e) => {
                    &&& e == EncodeError::NameTooLong
                    &&& !wf_name(self@)
                    &&& final(buf)@ == old(buf)@
                },
            },
    {
        if !self.is_well_formed() {
            return Err(EncodeError::NameTooLong);
        }
        proof {
            assert(self@.take(0) =~= Seq::<Seq<u8>>::empty());
        }
        let mut i: usize = 0;
        while i < self.labels.len()
            invariant
                i <= self.labels@.len(),
                wf_name(self@),
                buf@ == old(buf)@ + spec_labels_bytes(self@.take(i as int)),
            decreases self.labels@.len() - i,
        {
            proof {
                lemma_labels_bytes_snoc(self@, i as int);
            }
            let label = &self.labels[i];
            buf.push(label.len() as u8);
            buf.extend_from_slice(label.as_slice());
            assert(buf@ =~= old(buf)@ + spec_labels_bytes(self@.take(i + 1)));
            i = i + 1;
        }
        proof {
            assert(self@.take(i as int) =~= self@);
        }
        buf.push(0);
        assert(buf@ =~= old(buf)@ + spec_name_bytes(self@));
        Ok(())
    }
}

/// Label encodings concatenate: encoding the labels of `a + b` writes the
/// labels of `a`, then the labels of `b`.
proof fn lemma_labels_bytes_concat(a: Seq<Seq<u8>>, b: Seq<Seq<u8>>)
    ensures
        spec_labels_bytes(a + b) == spec_labels_bytes(a) + spec_labels_bytes(b),
    decreases a.len(),
{
    if a.len() == 0 {
        assert(a + b =~= b);
        assert(spec_labels_bytes(a) + spec_labels_bytes(b) =~= spec_labels_bytes(b));
    } else {
        lemma_labels_bytes_concat(a.skip(1), b);
        assert((a + b).skip(1) =~= a.skip(1) + b);
        assert((a + b)[0] == a[0]);
        assert(spec_labels_bytes(a + b) =~= spec_labels_bytes(a) + spec_labels_bytes(b));
    }
}

/// Encoding one more label appends its length byte and its bytes.
proof fn lemma_labels_bytes_snoc(name: Seq<Seq<u8>>, n: int)
    requires
        0 <= n < name.len(),
    ensures
        spec_labels_bytes(name.take(n + 1)) == spec_labels_bytes(name.take(n)) + seq![name[n].len() as u8]
            + name[n],
{
    let single = seq![name[n]];
    assert(name.take(n + 1) =~= name.take(n) + single);
    lemma_labels_bytes_concat(name.take(n), single);
    assert(single.skip(1) =~= Seq::<Seq<u8>>::empty());
    assert(spec_labels_bytes(Seq::<Seq<u8>>::empty()) =~= Seq::<u8>::empty());
    assert(spec_labels_bytes(single) =~= seq![name[n].len() as u8] + name[n]);
    assert(spec_labels_bytes(name.take(n + 1)) =~= spec_labels_bytes(name.take(n)) + seq![name[n].len() as u8]
        + name[n]);
}

/// A buffer that holds the literal encoding of a well-labelled name at
/// `pos` decodes to exactly that name, whatever else the buffer holds,
/// and the decoder stops just past the terminating zero byte.
pub proof fn lemma_parse_encoded_name(buf: Seq<u8>, name: Seq<Seq<u8>>, pos: int, hops: nat)
    requires
        forall|i: int| 0 <= i < name.len() ==> wf_label(#[trigger] name[i]),
        0 <= pos,
        pos + spec_name_bytes(name).len() <= buf.len(),
        buf.subrange(pos, pos + spec_name_bytes(name).len() as int) == spec_name_bytes(name),
    ensures
        parse_name(buf, pos, hops) == Ok::<_, DecodeError>(
            (name, pos + spec_name_bytes(name).len()),
        ),
    decreases name.len(),
{
    let nb = spec_name_bytes(name);
    assert(forall|k: int|
        0 <= k < nb.len() ==> buf[pos + k] == #[trigger] nb[k]) by {
        assert(forall|k: int|
            0 <= k < nb.len() ==> buf.subrange(pos, pos + nb.len() as int)[k] == #[trigger] nb[k]);
    }
    if name.len() == 0 {
        assert(nb =~= seq![0u8]);
        assert(buf[pos] == nb[0]);
        assert(buf[pos] == 0u8);
        assert(name =~= Seq::<Seq<u8>>::empty());
    } else {
        let l0 = name[0];
        let rest = name.skip(1);
        let len0 = l0.len() as int;
        assert(wf_label(name[0]));
        assert(nb =~= seq![l0.len() as u8] + l0 + spec_name_bytes(rest));
        assert(buf[pos] == nb[0]);
        assert(buf[pos] as int == len0);
        let rb = spec_name_bytes(rest);
        assert(nb.len() == 1 + len0 + rb.len());
        assert(buf.subrange(pos + 1, pos + 1 + len0) =~= l0) by {
            assert(forall|k: int| 0 <= k < len0 ==> buf[pos + 1 + k] == #[trigger] l0[k]) by {
                assert(forall|k: int| 0 <= k < len0 ==> nb[1 + k] == #[trigger] l0[k]);
            }
        }
        assert(buf.subrange(pos + 1 + len0, pos + 1 + len0 + rb.len() as int) =~= rb) by {
            assert(forall|k: int| 0 <= k < rb.len() ==> buf[pos + 1 + len0 + k] == #[trigger] rb[k])
                by {
                assert(forall|k: int| 0 <= k < rb.len() ==> nb[1 + len0 + k] == #[trigger] rb[k]);
            }
        }
        lemma_parse_encoded_name(buf, rest, pos + 1 + len0, hops);
        assert(seq![buf.subrange(pos + 1, pos + 1 + len0)] + rest =~= name);
        assert(parse_name(buf, pos, hops) == Ok::<_, DecodeError>((name, pos + nb.len())));
    }
}

/// Decoding an encoded name at the start of its own buffer restores the
/// name and consumes its full encoded length.
pub proof fn lemma_name_roundtrip(name: Seq<Seq<u8>>)
    requires
        wf_name(name),
    ensures
        parse_name(spec_name_bytes(name), 0, MAX_POINTER_HOPS as nat) == Ok::<_, DecodeError>(
            (name, spec_name_bytes(name).len() as int),
        ),
{
    let nb = spec_name_bytes(name);
    assert(nb.subrange(0, nb.len() as int) =~= nb);
    lemma_parse_encoded_name(nb, name, 0, MAX_POINTER_HOPS as nat);
}

/// A two-byte compression pointer at `ptr_pos` that targets a literal
/// encoding of a name at `name_pos` decodes to the same name, and
/// consumes exactly the pointer's two bytes.
pub proof fn lemma_pointer_roundtrip(
    buf: Seq<u8>,
    name: Seq<Seq<u8>>,
    name_pos: int,
    ptr_pos: int,
    hops: nat,
)
    requires
        forall|i: int| 0 <= i < name.len() ==> wf_label(#[trigger] name[i]),
        0 <= name_pos < 0x4000,
        name_pos + spec_name_bytes(name).len() <= buf.len(),
        buf.subrange(name_pos, name_pos + spec_name_bytes(name).len() as int) == spec_name_bytes(
            name,
        ),
        0 <= ptr_pos,
        ptr_pos + 2 <= buf.len(),
        buf[ptr_pos] == (0xC0 + name_pos / 256) as u8,
        buf[ptr_pos + 1] == (name_pos % 256) as u8,
        hops >= 1,
    ensures
        parse_name(buf, ptr_pos, hops) == Ok::<_, DecodeError>((name, ptr_pos + 2)),
{
    lemma_parse_encoded_name(buf, name, name_pos, (hops - 1) as nat);
    assert(0 <= name_pos / 256 < 64);
    assert(buf[ptr_pos] as int == 0xC0 + name_pos / 256);
    assert(buf[ptr_pos + 1] as int == name_pos % 256);
    assert((name_pos / 256) * 256 + name_pos % 256 == name_pos);
}

/// A compression pointer whose target lies at or past the end of the
/// buffer is malformed.
pub proof fn lemma_pointer_out_of_range(buf: Seq<u8>, pos: int, hops: nat)
    requires
        0 <= pos < buf.len(),
        buf[pos] >= 0xC0,
        pos + 2 <= buf.len(),
        ((buf[pos] as int) - 0xC0) * 256 + (buf[pos + 1] as int) >= buf.len(),
    ensures
        parse_name(buf, pos, hops) == Err::<(Seq<Seq<u8>>, int), _>(DecodeError::MalformedName),
{
}

/// A compression pointer that targets itself exhausts any hop budget and
/// is malformed, whatever the budget.
pub proof fn lemma_pointer_cycle(buf: Seq<u8>, pos: int, hops: nat)
    requires
        0 <= pos < buf.len(),
        buf[pos] >= 0xC0,
        pos + 2 <= buf.len(),
        ((buf[pos] as int) - 0xC0) * 256 + (buf[pos + 1] as int) == pos,
    ensures
        parse_name(buf, pos, hops) == Err::<(Seq<Seq<u8>>, int), _>(DecodeError::MalformedName),
    decreases hops,
{
    if hops > 0 {
        lemma_pointer_cycle(buf, pos, (hops - 1) as nat);
    }
}

/// The encoding of a prefix is never longer than the encoding of the
/// whole name.
proof fn lemma_labels_bytes_prefix_len(name: Seq<Seq<u8>>, n: int)
    requires
        0 <= n <= name.len(),
    ensures
        spec_labels_bytes(name.take(n)).len() <= spec_labels_bytes(name).len(),
    decreases name.len() - n,
{
    if n < name.len() {
        lemma_labels_bytes_snoc(name, n);
        lemma_labels_bytes_prefix_len(name, n + 1);
    } else {
        assert(name.take(n) =~= name);
    }
}

} // verus!
