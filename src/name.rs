use vstd::prelude::*;

use vstd::string::StringSliceAdditionalSpecFns;

use crate::error::DnsError;

verus! {

/// The octet that separates the segments of a domain name.
pub const DOT: u8 = 46;

/// The longest label the wire format can carry.
pub const MAX_LABEL_LEN: usize = 63;

/// The label sequence held by a vector of labels.
pub open spec fn labels_view(v: Seq<Vec<u8>>) -> Seq<Seq<u8>> {
    v.map_values(|l: Vec<u8>| l@)
}

/// `cur` as a label, or nothing when it is empty.
pub open spec fn flush(cur: Seq<u8>) -> Seq<Seq<u8>> {
    if cur.len() == 0 {
        seq![]
    } else {
        seq![cur]
    }
}

/// The non-empty dot-separated segments of `cur + rest`, where `cur` is a
/// segment already begun (it holds no dot).
pub open spec fn segments_from(rest: Seq<u8>, cur: Seq<u8>) -> Seq<Seq<u8>>
    decreases rest.len(),
{
    if rest.len() == 0 {
        flush(cur)
    } else if rest[0] == DOT {
        flush(cur) + segments_from(rest.drop_first(), seq![])
    } else {
        segments_from(rest.drop_first(), cur.push(rest[0]))
    }
}

/// The labels of a dotted domain name: its non-empty dot-separated segments.
pub open spec fn labels_of(name: Seq<u8>) -> Seq<Seq<u8>> {
    segments_from(name, seq![])
}

/// Every label is at most 63 octets long.
pub open spec fn labels_fit(ls: Seq<Seq<u8>>) -> bool {
    forall|i: int| 0 <= i < ls.len() ==> #[trigger] ls[i].len() <= MAX_LABEL_LEN
}

/// Every label is 1 to 63 octets long.
pub open spec fn valid_labels(ls: Seq<Seq<u8>>) -> bool {
    forall|i: int| 0 <= i < ls.len() ==> 1 <= #[trigger] ls[i].len() <= MAX_LABEL_LEN
}

/// The length-prefixed labels, without the terminating zero octet.
pub open spec fn labels_body(ls: Seq<Seq<u8>>) -> Seq<u8>
    decreases ls.len(),
{
    if ls.len() == 0 {
        seq![]
    } else {
        seq![ls[0].len() as u8] + ls[0] + labels_body(ls.drop_first())
    }
}

/// The uncompressed wire form of a label sequence.
pub open spec fn wire_of(ls: Seq<Seq<u8>>) -> Seq<u8> {
    labels_body(ls) + seq![0u8]
}

proof fn lemma_body_push(ls: Seq<Seq<u8>>, l: Seq<u8>)
    ensures
        labels_body(ls.push(l)) == labels_body(ls) + seq![l.len() as u8] + l,
    decreases ls.len(),
{
    if ls.len() == 0 {
        assert(ls.push(l).drop_first() =~= seq![]);
        assert(ls.push(l)[0] == l);
        assert(labels_body(seq![]) == Seq::<u8>::empty());
        assert(labels_body(ls.push(l)) =~= labels_body(ls) + seq![l.len() as u8] + l);
    } else {
        assert(ls.push(l).drop_first() =~= ls.drop_first().push(l));
        lemma_body_push(ls.drop_first(), l);
        assert(labels_body(ls.push(l)) =~= labels_body(ls) + seq![l.len() as u8] + l);
    }
}

/// Splits a dotted name into its non-empty segments.
pub fn split_labels(name: &str) -> (r: Vec<Vec<u8>>)
    ensures
        labels_view(r@) == labels_of(name.spec_bytes()),
{
    let bytes = name.as_bytes();
    let ghost s = bytes@;
    let mut labels: Vec<Vec<u8>> = Vec::new();
    let mut cur: Vec<u8> = Vec::new();
    let mut i: usize = 0;
    assert(s.skip(0) =~= s);
    assert(labels_view(labels@) + segments_from(s, cur@) =~= labels_of(s));
    while i < bytes.len()
        invariant
            bytes@ == s,
            s == name.spec_bytes(),
            i <= s.len(),
            labels_view(labels@) + segments_from(s.skip(i as int), cur@) == labels_of(s),
        decreases s.len() - i,
    {
        let b = bytes[i];
        let ghost before = labels_view(labels@);
        let ghost old_cur = cur@;
        assert(s.skip(i as int).drop_first() =~= s.skip(i + 1));
        if b == DOT {
            if cur.len() > 0 {
                labels.push(cur);
                assert(labels_view(labels@) =~= before + flush(old_cur));
            } else {
                assert(labels_view(labels@) =~= before + flush(old_cur));
            }
            cur = Vec::new();
            assert(labels_view(labels@) + segments_from(s.skip(i + 1), cur@) =~= before + (flush(
                old_cur,
            ) + segments_from(s.skip(i + 1), seq![])));
        } else {
            cur.push(b);
        }
        i = i + 1;
    }
    assert(s.skip(i as int) =~= seq![]);
    let ghost before = labels_view(labels@);
    if cur.len() > 0 {
        let ghost c = cur@;
        labels.push(cur);
        assert(labels_view(labels@) =~= before + flush(c));
    } else {
        assert(before + flush(cur@) =~= before);
    }
    labels
}

/// Whether every label is at most 63 octets long.
pub fn labels_within_limit(labels: &Vec<Vec<u8>>) -> (r: bool)
    ensures
        r == labels_fit(labels_view(labels@)),
{
    let mut i: usize = 0;
    while i < labels.len()
        invariant
            i <= labels@.len(),
            forall|j: int| 0 <= j < i ==> #[trigger] labels@[j]@.len() <= MAX_LABEL_LEN,
        decreases labels@.len() - i,
    {
        if labels[i].len() > MAX_LABEL_LEN {
            assert(labels_view(labels@)[i as int].len() > MAX_LABEL_LEN);
            return false;
        }
        i = i + 1;
    }
    assert forall|j: int| 0 <= j < labels_view(labels@).len() implies #[trigger] labels_view(
        labels@,
    )[j].len() <= MAX_LABEL_LEN by {
        assert(labels@[j]@.len() <= MAX_LABEL_LEN);
    }
    true
}

/// Appends the uncompressed wire form of `labels` to `out`.
pub fn write_name(out: &mut Vec<u8>, labels: &Vec<Vec<u8>>)
    requires
        labels_fit(labels_view(labels@)),
    ensures
        final(out)@ == old(out)@ + wire_of(labels_view(labels@)),
{
    let ghost ls = labels_view(labels@);
    let mut i: usize = 0;
    while i < labels.len()
        invariant
            ls == labels_view(labels@),
            labels_fit(ls),
            i <= labels@.len(),
            out@ == old(out)@ + labels_body(ls.take(i as int)),
        decreases labels@.len() - i,
    {
        let label = &labels[i];
        assert(ls[i as int] == label@);
        assert(label@.len() <= MAX_LABEL_LEN);
        let ghost before = out@;
        out.push(label.len() as u8);
        let mut j: usize = 0;
        while j < label.len()
            invariant
                j <= label@.len(),
                out@ == before + seq![label@.len() as u8] + label@.take(j as int),
            decreases label@.len() - j,
        {
            out.push(label[j]);
            assert(label@.take(j + 1) =~= label@.take(j as int).push(label@[j as int]));
            j = j + 1;
        }
        assert(label@.take(j as int) =~= label@);
        proof {
            assert(ls.take(i + 1) =~= ls.take(i as int).push(label@));
            lemma_body_push(ls.take(i as int), label@);
        }
        i = i + 1;
    }
    assert(ls.take(i as int) =~= ls);
    out.push(0u8);
    assert(out@ =~= old(out)@ + wire_of(ls));
}

/// Encodes a dotted name as length-prefixed labels and a zero terminator;
/// fails with `LabelTooLong` when a segment exceeds 63 octets.
pub fn encode_name(name: &str) -> (r: Result<Vec<u8>, DnsError>)
    ensures
        r is Ok <==> labels_fit(labels_of(name.spec_bytes())),
        r matches Ok(v) ==> v@ == wire_of(labels_of(name.spec_bytes())),
        r matches Err(e) ==> e == DnsError::LabelTooLong,
{
    let labels = split_labels(name);
    if !labels_within_limit(&labels) {
        return Err(DnsError::LabelTooLong);
    }
    let mut out: Vec<u8> = Vec::new();
    write_name(&mut out, &labels);
    assert(out@ =~= wire_of(labels_of(name.spec_bytes())));
    Ok(out)
}

/// The offset a compression pointer starting with `hi` then `lo` refers to:
/// the low six bits of `hi` and all eight bits of `lo`.
pub open spec fn pointer_target(hi: u8, lo: u8) -> int {
    (hi as int - 192) * 256 + lo as int
}

/// Decodes the name whose wire form starts at `pos` in the message `buf`.
/// `run_start` is where the current run of labels began: the name's own
/// start, or the target of the last pointer followed. A pointer must refer
/// strictly before `run_start`, so the runs start at strictly decreasing
/// offsets and decoding terminates. On success gives the labels and the
/// offset just past the name's wire form in the run that began at
/// `run_start` (for a pointer, just past the pointer's two octets).
pub open spec fn name_at(buf: Seq<u8>, pos: int, run_start: int) -> Result<
    (Seq<Seq<u8>>, int),
    DnsError,
>
    decreases run_start, buf.len() - pos,
{
    if !(0 <= pos < buf.len()) {
        Err(DnsError::TruncatedMessage)
    } else {
        let l = buf[pos];
        if l == 0 {
            Ok((seq![], pos + 1))
        } else if l < 64 {
            if pos + 1 + l > buf.len() {
                Err(DnsError::TruncatedMessage)
            } else {
                match name_at(buf, pos + 1 + l, run_start) {
                    Ok((rest, end)) => Ok((seq![buf.subrange(pos + 1, pos + 1 + l)] + rest, end)),
                    Err(e) => Err(e),
                }
            }
        } else if l >= 192 {
            if pos + 1 >= buf.len() {
                Err(DnsError::TruncatedMessage)
            } else {
                let t = pointer_target(l, buf[pos + 1]);
                if t >= run_start || t < 0 {
                    Err(DnsError::CompressionLoop)
                } else {
                    match name_at(buf, t, t) {
                        Ok((rest, _)) => Ok((rest, pos + 2)),
                        Err(e) => Err(e),
                    }
                }
            }
        } else {
            Err(DnsError::MalformedLabel)
        }
    }
}

/// Decodes the name starting at `start` in `buf`.
pub open spec fn name_from(buf: Seq<u8>, start: int) -> Result<(Seq<Seq<u8>>, int), DnsError> {
    name_at(buf, start, start)
}

/// The labels `prefix` followed by the outcome `r` of decoding the rest of
/// a name; when `end` holds an offset, it replaces the end that `r` gives.
pub open spec fn resume(
    prefix: Seq<Seq<u8>>,
    r: Result<(Seq<Seq<u8>>, int), DnsError>,
    end: Option<usize>,
) -> Result<(Seq<Seq<u8>>, int), DnsError> {
    match r {
        Ok((rest, e)) => Ok(
            (
                prefix + rest,
                match end {
                    Some(x) => x as int,
                    None => e,
                },
            ),
        ),
        Err(err) => Err(err),
    }
}

/// The mathematical value of a decoded name with its end offset.
pub open spec fn name_result_view(r: Result<(Vec<Vec<u8>>, usize), DnsError>) -> Result<
    (Seq<Seq<u8>>, int),
    DnsError,
> {
    match r {
        Ok((ls, end)) => Ok((labels_view(ls@), end as int)),
        Err(e) => Err(e),
    }
}

/// Copies `buf[from..from + n]` into a new vector.
fn copy_range(buf: &[u8], from: usize, n: usize) -> (r: Vec<u8>)
    requires
        from + n <= buf@.len(),
    ensures
        r@ == buf@.subrange(from as int, from + n),
{
    let mut out: Vec<u8> = Vec::new();
    let len = buf.len();
    let mut j: usize = 0;
    while j < n
        invariant
            j <= n,
            len == buf@.len(),
            from + n <= buf@.len(),
            out@ == buf@.subrange(from as int, from + j),
        decreases n - j,
    {
        out.push(buf[from + j]);
        assert(out@ =~= buf@.subrange(from as int, from + j + 1));
        j = j + 1;
    }
    out
}

/// Decodes the name starting at offset `start` of the message `buf`,
/// following compression pointers. Gives the labels and the offset just
/// past the name's wire form at `start`; an error names the first problem
/// met on the way.
pub fn decode_name(buf: &[u8], start: usize) -> (r: Result<(Vec<Vec<u8>>, usize), DnsError>)
    ensures
        name_result_view(r) == name_from(buf@, start as int),
{
    let mut labels: Vec<Vec<u8>> = Vec::new();
    let mut pos: usize = start;
    let mut run: usize = start;
    let mut end: Option<usize> = None;
    assert(labels_view(labels@) =~= seq![]);
    proof {
        match name_at(buf@, start as int, start as int) {
            Ok((rest, e)) => {
                assert(Seq::<Seq<u8>>::empty() + rest =~= rest);
            },
            Err(_) => {},
        }
    }
    loop
        invariant
            run <= pos,
            name_from(buf@, start as int) == resume(
                labels_view(labels@),
                name_at(buf@, pos as int, run as int),
                end,
            ),
        decreases run, buf@.len() - pos,
    {
        if pos >= buf.len() {
            return Err(DnsError::TruncatedMessage);
        }
        let l = buf[pos];
        if l == 0 {
            let e = match end {
                Some(e) => e,
                None => pos + 1,
            };
            return Ok((labels, e));
        } else if l < 64 {
            let n = l as usize;
            if n + 1 > buf.len() - pos {
                return Err(DnsError::TruncatedMessage);
            }
            let label = copy_range(buf, pos + 1, n);
            let ghost before = labels_view(labels@);
            let ghost next = name_at(buf@, pos + 1 + n, run as int);
            labels.push(label);
            assert(labels_view(labels@) =~= before.push(label@));
            proof {
                match next {
                    Ok((rest, e)) => {
                        assert(before + (seq![label@] + rest) =~= before.push(label@) + rest);
                    },
                    Err(_) => {},
                }
            }
            pos = pos + 1 + n;
        } else if l >= 192 {
            if pos + 1 >= buf.len() {
                return Err(DnsError::TruncatedMessage);
            }
            let t: usize = ((l - 192) as usize) * 256 + (buf[pos + 1] as usize);
            if t >= run {
                return Err(DnsError::CompressionLoop);
            }
            if end.is_none() {
                end = Some(pos + 2);
            }
            pos = t;
            run = t;
        } else {
            return Err(DnsError::MalformedLabel);
        }
    }
}

proof fn lemma_segments_nonempty(rest: Seq<u8>, cur: Seq<u8>)
    ensures
        forall|i: int|
            0 <= i < segments_from(rest, cur).len() ==> #[trigger] segments_from(rest, cur)[i].len()
                >= 1,
    decreases rest.len(),
{
    if rest.len() == 0 {
        assert(segments_from(rest, cur) == flush(cur));
        if cur.len() > 0 {
            assert(flush(cur)[0] == cur);
        }
    } else if rest[0] == DOT {
        lemma_segments_nonempty(rest.drop_first(), seq![]);
        let a = flush(cur);
        let b = segments_from(rest.drop_first(), seq![]);
        assert forall|i: int| 0 <= i < (a + b).len() implies #[trigger] (a + b)[i].len() >= 1 by {
            if i >= a.len() {
                assert((a + b)[i] == b[i - a.len()]);
            } else {
                assert((a + b)[i] == a[i]);
            }
        }
        assert(segments_from(rest, cur) == a + b);
    } else {
        lemma_segments_nonempty(rest.drop_first(), cur.push(rest[0]));
        assert(segments_from(rest, cur) == segments_from(rest.drop_first(), cur.push(rest[0])));
    }
}

/// The labels of a dotted name are never empty.
pub proof fn lemma_labels_nonempty(name: Seq<u8>)
    ensures
        forall|i: int| 0 <= i < labels_of(name).len() ==> #[trigger] labels_of(name)[i].len() >= 1,
{
    lemma_segments_nonempty(name, seq![]);
}

/// Wherever the uncompressed wire form of labels of 1 to 63 octets stands
/// in a message, decoding it gives back those labels and the offset just
/// past it, whatever follows.
pub proof fn lemma_wire_round_trip(pre: Seq<u8>, ls: Seq<Seq<u8>>, post: Seq<u8>, run_start: int)
    requires
        valid_labels(ls),
        run_start <= pre.len(),
    ensures
        name_at(pre + wire_of(ls) + post, pre.len() as int, run_start) == Ok::<
            (Seq<Seq<u8>>, int),
            DnsError,
        >((ls, (pre.len() + wire_of(ls).len()) as int)),
    decreases ls.len(),
{
    let buf = pre + wire_of(ls) + post;
    let pos = pre.len() as int;
    if ls.len() == 0 {
        assert(buf[pos] == 0);
        assert(ls =~= seq![]);
    } else {
        let l = ls[0];
        let rest = ls.drop_first();
        assert(valid_labels(rest)) by {
            assert forall|i: int| 0 <= i < rest.len() implies 1 <= #[trigger] rest[i].len()
                <= MAX_LABEL_LEN by {
                assert(rest[i] == ls[i + 1]);
            }
        }
        assert(1 <= l.len() <= MAX_LABEL_LEN);
        assert(wire_of(ls) =~= seq![l.len() as u8] + l + wire_of(rest));
        let pre2 = pre + seq![l.len() as u8] + l;
        assert(buf =~= pre2 + wire_of(rest) + post);
        lemma_wire_round_trip(pre2, rest, post, run_start);
        assert(buf[pos] == l.len() as u8);
        assert(buf.subrange(pos + 1, pos + 1 + l.len()) =~= l);
        assert(seq![l] + rest =~= ls);
    }
}

/// Decoding the encoding of a dotted name whose labels are each at most 63
/// octets long gives back the name's labels.
pub proof fn lemma_name_round_trip(name: Seq<u8>)
    requires
        labels_fit(labels_of(name)),
    ensures
        name_from(wire_of(labels_of(name)), 0) == Ok::<(Seq<Seq<u8>>, int), DnsError>(
            (labels_of(name), wire_of(labels_of(name)).len() as int),
        ),
{
    let ls = labels_of(name);
    lemma_labels_nonempty(name);
    assert(valid_labels(ls));
    lemma_wire_round_trip(seq![], ls, seq![], 0);
    assert(Seq::<u8>::empty() + wire_of(ls) + Seq::<u8>::empty() =~= wire_of(ls));
}

/// A name that is a single compression pointer to an earlier offset `t`
/// decodes to the labels of the name at `t`, and ends just past the
/// pointer's two octets; it fails as the name at `t` does.
pub proof fn lemma_pointer_follows(buf: Seq<u8>, p: int, t: int)
    requires
        0 <= t < p,
        p + 1 < buf.len(),
        buf[p] >= 192,
        pointer_target(buf[p], buf[p + 1]) == t,
    ensures
        name_from(buf, p) == match name_from(buf, t) {
            Ok((ls, _)) => Ok((ls, p + 2)),
            Err(e) => Err(e),
        },
{
}

/// A compression pointer at offset `n` that refers to `n` itself or beyond
/// makes decoding fail with `CompressionLoop`, for a name that starts at
/// `n` or reaches `n` through ordinary labels.
pub proof fn lemma_forward_pointer_rejected(buf: Seq<u8>, n: int, run_start: int)
    requires
        0 <= run_start <= n,
        n + 1 < buf.len(),
        buf[n] >= 192,
        pointer_target(buf[n], buf[n + 1]) >= n,
    ensures
        name_at(buf, n, run_start) == Err::<(Seq<Seq<u8>>, int), DnsError>(
            DnsError::CompressionLoop,
        ),
{
}

/// Every name that decodes successfully has labels of 1 to 63 octets, and
/// ends after its start and within the buffer.
pub proof fn lemma_decoded_labels_valid(buf: Seq<u8>, pos: int, run_start: int)
    ensures
        name_at(buf, pos, run_start) matches Ok((ls, e)) ==> valid_labels(ls) && pos < e
            <= buf.len(),
    decreases run_start, buf.len() - pos,
{
    if 0 <= pos < buf.len() {
        let l = buf[pos];
        if l == 0 {
        } else if l < 64 {
            if pos + 1 + l <= buf.len() {
                lemma_decoded_labels_valid(buf, pos + 1 + l, run_start);
                if let Ok((rest, _)) = name_at(buf, pos + 1 + l, run_start) {
                    let head = buf.subrange(pos + 1, pos + 1 + l);
                    let ls = seq![head] + rest;
                    assert forall|i: int| 0 <= i < ls.len() implies 1 <= #[trigger] ls[i].len()
                        <= MAX_LABEL_LEN by {
                        if i > 0 {
                            assert(ls[i] == rest[i - 1]);
                        }
                    }
                }
            }
        } else if l >= 192 && pos + 1 < buf.len() {
            let t = pointer_target(l, buf[pos + 1]);
            if 0 <= t < run_start {
                lemma_decoded_labels_valid(buf, t, t);
            }
        }
    }
}

/// Decoding a name in a prefix of a message gives what decoding it in the
/// whole message gives, or fails with `TruncatedMessage`: no decision reads
/// past the end of the buffer it is given.
pub proof fn lemma_name_prefix(buf: Seq<u8>, k: int, pos: int, run_start: int)
    requires
        0 <= k <= buf.len(),
    ensures
        name_at(buf.take(k), pos, run_start) == name_at(buf, pos, run_start) || name_at(
            buf.take(k),
            pos,
            run_start,
        ) == Err::<(Seq<Seq<u8>>, int), DnsError>(DnsError::TruncatedMessage),
    decreases run_start, buf.len() - pos,
{
    let b = buf.take(k);
    if 0 <= pos < k {
        let l = buf[pos];
        assert(b[pos] == l);
        if l == 0 {
        } else if l < 64 {
            if pos + 1 + l <= k {
                lemma_name_prefix(buf, k, pos + 1 + l, run_start);
                assert(b.subrange(pos + 1, pos + 1 + l) =~= buf.subrange(pos + 1, pos + 1 + l));
            }
        } else if l >= 192 {
            if pos + 1 < k {
                assert(b[pos + 1] == buf[pos + 1]);
                let t = pointer_target(l, buf[pos + 1]);
                if 0 <= t < run_start {
                    lemma_name_prefix(buf, k, t, t);
                }
            }
        }
    }
}

} // verus!
