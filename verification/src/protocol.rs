//! Wire-level pieces of the remote synchronization protocol: the error
//! taxonomy, comma-joined chunk-id lists, decimal watermark rendering, and
//! the request paths the client puts on the wire.

use vstd::prelude::*;
use vstd::string::*;

verus! {

/// Failure taxonomy of the synchronization core.
///
/// `RemoteUnavailable` covers transport failures, `MalformedResponse` a
/// payload the protocol decoder rejects, `ChunkNotFound` a chunk id the
/// other side does not hold, and `LocalIoError` a failure of the local
/// store or registry.
#[derive(Clone, Copy, PartialEq, Eq, Structural, Debug)]
pub enum SyncError {
    RemoteUnavailable,
    MalformedResponse,
    ChunkNotFound,
    LocalIoError,
}

/// The chunk-id sequence a comma-joined string denotes: splitting on every
/// comma, so the empty string denotes one empty id.
pub open spec fn split_ids(s: Seq<char>) -> Seq<Seq<char>>
    decreases s.len(),
{
    if s.len() == 0 {
        seq![Seq::<char>::empty()]
    } else {
        let rest = split_ids(s.drop_first());
        if s[0] == ',' {
            seq![Seq::<char>::empty()].add(rest)
        } else {
            seq![seq![s[0]].add(rest[0])].add(rest.drop_first())
        }
    }
}

pub open spec fn comma_free(s: Seq<char>) -> bool {
    forall|i: int| 0 <= i < s.len() ==> s[i] != ','
}

/// A comma-free string splits to itself alone.
pub proof fn lemma_split_comma_free(s: Seq<char>)
    requires
        comma_free(s),
    ensures
        split_ids(s) =~~= seq![s],
    decreases s.len(),
{
    if s.len() > 0 {
        lemma_split_comma_free(s.drop_first());
        assert(split_ids(s) =~~= seq![seq![s[0]].add(s.drop_first())]);
        assert(seq![s[0]].add(s.drop_first()) =~= s);
    }
}

/// Splitting a string that opens with a comma-free segment, a comma, and a
/// tail yields that segment followed by the split of the tail.
pub proof fn lemma_split_at_comma(a: Seq<char>, b: Seq<char>)
    requires
        comma_free(a),
    ensures
        split_ids(a + seq![','] + b) =~~= seq![a].add(split_ids(b)),
    decreases a.len(),
{
    let s = a + seq![','] + b;
    if a.len() == 0 {
        assert(s =~= seq![','].add(b));
        assert(s.drop_first() =~= b);
    } else {
        assert(s.drop_first() =~= a.drop_first() + seq![','] + b);
        lemma_split_at_comma(a.drop_first(), b);
        let rest = split_ids(s.drop_first());
        assert(rest[0] == a.drop_first());
        assert(seq![s[0]].add(rest[0]) =~= a);
        assert(rest.drop_first() =~~= split_ids(b));
    }
}

/// Splits a comma-joined chunk-id string into the individual ids, exactly
/// as the listing and negotiation payloads carry them.
pub fn split_chunk_ids(s: &str) -> (r: Vec<String>)
    ensures
        r.deep_view() =~~= split_ids(s@),
        r.len() >= 1,
{
    let n: usize = s.unicode_len();
    let mut out: Vec<String> = Vec::new();
    let mut start: usize = 0;
    let mut i: usize = 0;
    proof {
        assert(s@.subrange(0, n as int) =~= s@);
        assert(out.deep_view() =~= Seq::<Seq<char>>::empty());
    }
    while i < n
        invariant
            0 <= start <= i <= n,
            n == s@.len(),
            comma_free(s@.subrange(start as int, i as int)),
            split_ids(s@) =~~= out.deep_view().add(
                split_ids(s@.subrange(start as int, n as int)),
            ),
        decreases n - i,
    {
        let c = s.get_char(i);
        if c == ',' {
            let seg = s.substring_char(start, i);
            proof {
                let a = s@.subrange(start as int, i as int);
                let b = s@.subrange(i + 1, n as int);
                assert(s@.subrange(start as int, n as int) =~= a + seq![','] + b);
                lemma_split_at_comma(a, b);
            }
            out.push(seg.to_owned());
            start = i + 1;
            proof {
                assert(comma_free(s@.subrange(start as int, i + 1)));
            }
        } else {
            proof {
                assert(s@.subrange(start as int, i + 1) =~=
                    s@.subrange(start as int, i as int).push(c));
            }
        }
        i = i + 1;
    }
    let seg = s.substring_char(start, n);
    proof {
        lemma_split_comma_free(s@.subrange(start as int, n as int));
    }
    out.push(seg.to_owned());
    out
}

/// Every piece of a split is itself comma-free, and a split never comes
/// out empty.
pub proof fn lemma_split_elements_comma_free(s: Seq<char>)
    ensures
        split_ids(s).len() >= 1,
        forall|i: int| 0 <= i < split_ids(s).len() ==> comma_free(#[trigger] split_ids(s)[i]),
    decreases s.len(),
{
    if s.len() == 0 {
        assert(comma_free(split_ids(s)[0]));
    } else {
        lemma_split_elements_comma_free(s.drop_first());
        let rest = split_ids(s.drop_first());
        if s[0] == ',' {
            assert forall|i: int| 0 <= i < split_ids(s).len() implies comma_free(
                #[trigger] split_ids(s)[i],
            ) by {
                if i == 0 {
                    assert(split_ids(s)[0] =~= Seq::<char>::empty());
                } else {
                    assert(split_ids(s)[i] == rest[i - 1]);
                }
            }
        } else {
            assert forall|i: int| 0 <= i < split_ids(s).len() implies comma_free(
                #[trigger] split_ids(s)[i],
            ) by {
                if i == 0 {
                    let h = seq![s[0]].add(rest[0]);
                    assert(split_ids(s)[0] == h);
                    assert(comma_free(rest[0]));
                    assert forall|k: int| 0 <= k < h.len() implies h[k] != ',' by {
                        if k == 0 {
                            assert(h[0] == s[0]);
                        } else {
                            assert(h[k] == rest[0][k - 1]);
                        }
                    }
                } else {
                    assert(split_ids(s)[i] == rest.drop_first()[i - 1]);
                    assert(rest.drop_first()[i - 1] == rest[i]);
                }
            }
        }
    }
}

/// The comma-joined rendering of an id sequence; the inverse of
/// `split_ids` on sequences of comma-free ids.
pub open spec fn join_ids(ids: Seq<Seq<char>>) -> Seq<char>
    decreases ids.len(),
{
    if ids.len() == 0 {
        Seq::empty()
    } else if ids.len() == 1 {
        ids[0]
    } else {
        ids[0] + seq![','] + join_ids(ids.drop_first())
    }
}

/// Joining then splitting returns the ids unchanged, as long as each id is
/// itself comma-free and there is at least one.
pub proof fn lemma_split_join_round_trip(ids: Seq<Seq<char>>)
    requires
        ids.len() >= 1,
        forall|i: int| 0 <= i < ids.len() ==> comma_free(#[trigger] ids[i]),
    ensures
        split_ids(join_ids(ids)) =~~= ids,
    decreases ids.len(),
{
    if ids.len() == 1 {
        lemma_split_comma_free(ids[0]);
        assert(split_ids(join_ids(ids)) =~~= seq![ids[0]]);
        assert(seq![ids[0]] =~~= ids);
    } else {
        lemma_split_join_round_trip(ids.drop_first());
        lemma_split_at_comma(ids[0], join_ids(ids.drop_first()));
        assert(split_ids(join_ids(ids)) =~~= seq![ids[0]].add(ids.drop_first()));
        assert(seq![ids[0]].add(ids.drop_first()) =~= ids);
    }
}

/// Joins chunk ids with commas, the form the commit request and the
/// negotiation answer carry.
pub fn join_chunk_ids(ids: &Vec<String>) -> (r: String)
    ensures
        r@ == join_ids(ids.deep_view()),
{
    let mut out = String::new();
    if ids.len() == 0 {
        return out;
    }
    let mut i: usize = 0;
    while i < ids.len()
        invariant
            0 <= i <= ids.len(),
            ids.len() >= 1,
            out@ == join_ids(ids.deep_view().subrange(0, i as int)),
        decreases ids.len() - i,
    {
        if i > 0 {
            out.append(",");
        }
        out.append(ids[i].as_str());
        proof {
            let dv = ids.deep_view();
            reveal_strlit(",");
            assert(","@ =~= seq![',']);
            if i == 0 {
                assert(dv.subrange(0, 0) =~= Seq::<Seq<char>>::empty());
                assert(out@ =~= dv[0]);
            }
            lemma_join_push(dv, i as int, out@);
        }
        i = i + 1;
    }
    proof {
        assert(ids.deep_view().subrange(0, ids.len() as int) =~= ids.deep_view());
    }
    out
}

proof fn lemma_join_push(ids: Seq<Seq<char>>, i: int, built: Seq<char>)
    requires
        0 <= i < ids.len(),
        built == if i == 0 {
            ids[0]
        } else {
            join_ids(ids.subrange(0, i)) + seq![','] + ids[i]
        },
    ensures
        built == join_ids(ids.subrange(0, i + 1)),
    decreases i,
{
    if i == 0 {
        assert(ids.subrange(0, 1) =~= seq![ids[0]]);
        assert(join_ids(ids.subrange(0, 1)) == ids[0]);
    } else {
        let pre = ids.subrange(0, i + 1);
        if i == 1 {
            assert(ids.subrange(0, 1) =~= seq![ids[0]]);
            assert(join_ids(ids.subrange(0, 1)) == ids[0]);
            assert(pre.drop_first() =~= seq![ids[1]]);
            assert(join_ids(pre.drop_first()) == ids[1]);
            assert(pre[0] == ids[0]);
            assert(join_ids(pre) == ids[0] + seq![','] + ids[1]);
        } else {
            lemma_join_split(ids, i);
            assert(join_ids(pre) == pre[0] + seq![','] + join_ids(pre.drop_first()));
        }
    }
}

/// The character for one decimal digit.
pub open spec fn digit_char(d: nat) -> char {
    if d == 0 { '0' }
    else if d == 1 { '1' }
    else if d == 2 { '2' }
    else if d == 3 { '3' }
    else if d == 4 { '4' }
    else if d == 5 { '5' }
    else if d == 6 { '6' }
    else if d == 7 { '7' }
    else if d == 8 { '8' }
    else { '9' }
}

/// The canonical decimal rendering of a natural number: no sign, no
/// leading zero except for zero itself.
pub open spec fn decimal_of(n: nat) -> Seq<char>
    decreases n,
{
    if n < 10 {
        seq![digit_char(n)]
    } else {
        decimal_of(n / 10).push(digit_char(n % 10))
    }
}

fn digit_str(d: u32) -> (r: &'static str)
    requires
        d < 10,
    ensures
        r@ =~= seq![digit_char(d as nat)],
{
    let r: &'static str = if d == 0 { "0" }
    else if d == 1 { "1" }
    else if d == 2 { "2" }
    else if d == 3 { "3" }
    else if d == 4 { "4" }
    else if d == 5 { "5" }
    else if d == 6 { "6" }
    else if d == 7 { "7" }
    else if d == 8 { "8" }
    else { "9" };
    proof {
        reveal_strlit("0");
        reveal_strlit("1");
        reveal_strlit("2");
        reveal_strlit("3");
        reveal_strlit("4");
        reveal_strlit("5");
        reveal_strlit("6");
        reveal_strlit("7");
        reveal_strlit("8");
        reveal_strlit("9");
    }
    r
}

/// Renders a watermark as decimal digits, exactly `decimal_of` the value.
pub fn format_decimal(n: u32) -> (r: String)
    ensures
        r@ == decimal_of(n as nat),
    decreases n,
{
    if n < 10 {
        String::from_str(digit_str(n))
    } else {
        let r = format_decimal(n / 10).concat(digit_str(n % 10));
        proof {
            assert(r@ =~= decimal_of((n / 10) as nat).push(digit_char((n % 10) as nat)));
        }
        r
    }
}

pub open spec fn is_digit(c: char) -> bool {
    c == '0' || c == '1' || c == '2' || c == '3' || c == '4' || c == '5' || c == '6' || c == '7'
        || c == '8' || c == '9'
}

pub open spec fn digit_value(c: char) -> nat {
    if c == '0' { 0 }
    else if c == '1' { 1 }
    else if c == '2' { 2 }
    else if c == '3' { 3 }
    else if c == '4' { 4 }
    else if c == '5' { 5 }
    else if c == '6' { 6 }
    else if c == '7' { 7 }
    else if c == '8' { 8 }
    else { 9 }
}

pub open spec fn all_digits(s: Seq<char>) -> bool {
    forall|i: int| 0 <= i < s.len() ==> is_digit(#[trigger] s[i])
}

/// The number a digit string denotes, most significant digit first.
pub open spec fn digits_value(s: Seq<char>) -> nat
    decreases s.len(),
{
    if s.len() == 0 {
        0
    } else {
        digits_value(s.drop_last()) * 10 + digit_value(s.last())
    }
}

proof fn lemma_digit_char_value(d: nat)
    requires
        d < 10,
    ensures
        is_digit(digit_char(d)),
        digit_value(digit_char(d)) == d,
{
}

/// Reading back the canonical rendering recovers the value.
pub proof fn lemma_decimal_round_trip(n: nat)
    ensures
        all_digits(decimal_of(n)),
        digits_value(decimal_of(n)) == n,
        1 <= decimal_of(n).len(),
    decreases n,
{
    if n < 10 {
        let s = decimal_of(n);
        lemma_digit_char_value(n);
        assert(s.drop_last() =~= Seq::<char>::empty());
        assert(s.last() == digit_char(n));
        assert(digits_value(Seq::<char>::empty()) == 0);
        assert(s.len() == 1);
        assert(digits_value(s) == digits_value(s.drop_last()) * 10 + digit_value(s.last()));
    } else {
        lemma_decimal_round_trip(n / 10);
        lemma_digit_char_value(n % 10);
        let s = decimal_of(n);
        assert(s.drop_last() =~= decimal_of(n / 10));
        assert(s.last() == digit_char(n % 10));
        assert(digits_value(s) == (n / 10) * 10 + n % 10);
        assert(n == (n / 10) * 10 + n % 10);
        assert(forall|i: int| 0 <= i < s.len() ==> is_digit(#[trigger] s[i]));
    }
}

/// Parses an unsigned decimal number, accepting exactly the non-empty
/// all-digit strings whose value fits in `u32`.
pub fn parse_decimal(s: &str) -> (r: Option<u32>)
    ensures
        match r {
            Some(v) => s@.len() >= 1 && all_digits(s@) && digits_value(s@) == v as nat,
            None => s@.len() == 0 || !all_digits(s@) || digits_value(s@) > u32::MAX,
        },
{
    let n: usize = s.unicode_len();
    if n == 0 {
        return None;
    }
    let mut val: u32 = 0;
    let mut i: usize = 0;
    proof {
        assert(s@.subrange(0, 0) =~= Seq::<char>::empty());
    }
    while i < n
        invariant
            0 <= i <= n,
            n == s@.len(),
            all_digits(s@.subrange(0, i as int)),
            val as nat == digits_value(s@.subrange(0, i as int)),
        decreases n - i,
    {
        let c = s.get_char(i);
        let d: u32 = if c == '0' { 0 }
        else if c == '1' { 1 }
        else if c == '2' { 2 }
        else if c == '3' { 3 }
        else if c == '4' { 4 }
        else if c == '5' { 5 }
        else if c == '6' { 6 }
        else if c == '7' { 7 }
        else if c == '8' { 8 }
        else if c == '9' { 9 }
        else {
            proof {
                assert(!is_digit(s@[i as int]));
            }
            return None;
        };
        if val > (u32::MAX - d) / 10 {
            proof {
                let pre = s@.subrange(0, i + 1);
                assert(pre.drop_last() =~= s@.subrange(0, i as int));
                assert(digits_value(pre) > u32::MAX);
                lemma_digits_value_monotonic(s@, i + 1);
            }
            return None;
        }
        val = val * 10 + d;
        proof {
            let pre = s@.subrange(0, i + 1);
            assert(pre.drop_last() =~= s@.subrange(0, i as int));
            assert(pre.last() == c);
        }
        i = i + 1;
    }
    proof {
        assert(s@.subrange(0, n as int) =~= s@);
    }
    Some(val)
}

/// A longer all-digit prefix never denotes a smaller number, so overflow
/// of a prefix settles overflow of the whole string.
proof fn lemma_digits_value_monotonic(s: Seq<char>, i: int)
    requires
        0 <= i <= s.len(),
    ensures
        digits_value(s) >= digits_value(s.subrange(0, i)),
    decreases s.len() - i,
{
    if i < s.len() {
        lemma_digits_value_monotonic(s, i + 1);
        let a = s.subrange(0, i + 1);
        assert(a.drop_last() =~= s.subrange(0, i));
        assert(digits_value(a) == digits_value(s.subrange(0, i)) * 10 + digit_value(a.last()));
    } else {
        assert(s.subrange(0, i) =~= s);
    }
}

/// Outcome of the two-phase commit negotiation: either the remote held
/// every referenced chunk and assigned a new watermark, or it answers with
/// the comma-joined ids of the chunks it still needs.
pub enum CommitResultStatus {
    Success(i32),
    NeedChunks(String),
}

pub open spec fn ok_prefix() -> Seq<char> {
    seq!['o', 'k', ':']
}

pub open spec fn need_prefix() -> Seq<char> {
    seq!['n', 'e', 'e', 'd', ':']
}

/// A well-formed success payload: `ok:` followed by decimal digits whose
/// value fits the watermark type.
pub open spec fn is_ok_payload(s: Seq<char>) -> bool {
    s.len() > 3 && s.subrange(0, 3) == ok_prefix() && all_digits(s.skip(3)) && digits_value(
        s.skip(3),
    ) <= i32::MAX
}

/// A well-formed negotiation payload: `need:` followed by the comma-joined
/// missing chunk ids.
pub open spec fn is_need_payload(s: Seq<char>) -> bool {
    s.len() >= 5 && s.subrange(0, 5) == need_prefix()
}

/// Decodes the commit answer. Returns `Success` exactly on `ok:` payloads
/// carrying a decimal watermark in range, `NeedChunks` exactly on `need:`
/// payloads, and rejects everything else as malformed.
pub fn parse_commit_result(s: &str) -> (r: Result<CommitResultStatus, SyncError>)
    ensures
        match r {
            Ok(CommitResultStatus::Success(j)) => is_ok_payload(s@) && j >= 0 && j as nat
                == digits_value(s@.skip(3)),
            Ok(CommitResultStatus::NeedChunks(m)) => is_need_payload(s@) && m@ == s@.skip(5),
            Err(e) => e == SyncError::MalformedResponse && !is_ok_payload(s@) && !is_need_payload(
                s@,
            ),
        },
{
    let n: usize = s.unicode_len();
    if n >= 5 && s.get_char(0) == 'n' && s.get_char(1) == 'e' && s.get_char(2) == 'e'
        && s.get_char(3) == 'd' && s.get_char(4) == ':' {
        let rest = s.substring_char(5, n);
        proof {
            assert(s@.subrange(0, 5) =~= need_prefix());
            assert(rest@ =~= s@.skip(5));
        }
        return Ok(CommitResultStatus::NeedChunks(rest.to_owned()));
    }
    if n > 3 && s.get_char(0) == 'o' && s.get_char(1) == 'k' && s.get_char(2) == ':' {
        let rest = s.substring_char(3, n);
        proof {
            assert(s@.subrange(0, 3) =~= ok_prefix());
            assert(rest@ =~= s@.skip(3));
        }
        match parse_decimal(rest) {
            Some(v) => {
                if v <= 2147483647u32 {
                    return Ok(CommitResultStatus::Success(v as i32));
                }
            },
            None => {},
        }
        proof {
            assert(!is_ok_payload(s@));
            assert(!is_need_payload(s@));
        }
        return Err(SyncError::MalformedResponse);
    }
    proof {
        if is_ok_payload(s@) {
            assert(s@.subrange(0, 3)[0] == 'o');
            assert(s@.subrange(0, 3)[1] == 'k');
            assert(s@.subrange(0, 3)[2] == ':');
            assert(false);
        }
        if is_need_payload(s@) {
            assert(s@.subrange(0, 5)[0] == 'n');
            assert(s@.subrange(0, 5)[1] == 'e');
            assert(s@.subrange(0, 5)[2] == 'e');
            assert(s@.subrange(0, 5)[3] == 'd');
            assert(s@.subrange(0, 5)[4] == ':');
            assert(false);
        }
    }
    Err(SyncError::MalformedResponse)
}

/// Encodes a commit answer; the inverse of `parse_commit_result` on
/// well-formed values.
pub fn encode_commit_result(r: &CommitResultStatus) -> (out: String)
    requires
        r matches CommitResultStatus::Success(j) ==> j >= 0,
    ensures
        match r {
            CommitResultStatus::Success(j) => out@ == ok_prefix() + decimal_of(j as nat),
            CommitResultStatus::NeedChunks(m) => out@ == need_prefix() + m@,
        },
{
    match r {
        CommitResultStatus::Success(j) => {
            let digits = format_decimal(*j as u32);
            let out = String::from_str("ok:").concat(digits.as_str());
            proof {
                reveal_strlit("ok:");
                assert("ok:"@ =~= ok_prefix());
                assert(out@ =~= ok_prefix() + decimal_of(*j as nat));
            }
            out
        },
        CommitResultStatus::NeedChunks(m) => {
            let out = String::from_str("need:").concat(m.as_str());
            proof {
                reveal_strlit("need:");
                assert("need:"@ =~= need_prefix());
                assert(out@ =~= need_prefix() + m@);
            }
            out
        },
    }
}

/// An encoded success answer is a well-formed `ok:` payload carrying its
/// watermark, and an encoded negotiation answer is a well-formed `need:`
/// payload carrying its ids: decoding an encoded answer recovers it.
pub proof fn lemma_commit_payload_round_trip(j: nat, m: Seq<char>)
    ensures
        j <= i32::MAX ==> is_ok_payload(ok_prefix() + decimal_of(j)) && digits_value(
            (ok_prefix() + decimal_of(j)).skip(3),
        ) == j,
        is_need_payload(need_prefix() + m),
        (need_prefix() + m).skip(5) =~= m,
{
    if j <= i32::MAX {
        lemma_decimal_round_trip(j);
        let s = ok_prefix() + decimal_of(j);
        assert(s.subrange(0, 3) =~= ok_prefix());
        assert(s.skip(3) =~= decimal_of(j));
    }
    let t = need_prefix() + m;
    assert(t.subrange(0, 5) =~= need_prefix());
}

pub open spec fn chunks_segment() -> Seq<char> {
    seq!['/', 'c', 'h', 'u', 'n', 'k', 's', '/']
}

pub open spec fn list_segment() -> Seq<char> {
    seq!['/', 'm', 'e', 't', 'a', 'd', 'a', 't', 'a', '/', 'l', 'i', 's', 't', '?', 'j', 'i', 'd', '=']
}

pub open spec fn commit_segment() -> Seq<char> {
    seq!['/', 'm', 'e', 't', 'a', 'd', 'a', 't', 'a', '/', 'c', 'o', 'm', 'm', 'i', 't']
}

/// The URL a chunk is downloaded from or uploaded to.
pub fn chunk_request_url(endpoint: &str, chunk: &str) -> (r: String)
    ensures
        r@ == endpoint@ + chunks_segment() + chunk@,
{
    let r = String::from_str(endpoint).concat("/chunks/").concat(chunk);
    proof {
        reveal_strlit("/chunks/");
        assert("/chunks/"@ =~= chunks_segment());
        assert(r@ =~= endpoint@ + chunks_segment() + chunk@);
    }
    r
}

/// The URL that lists every remote record past the given watermark.
pub fn list_request_url(endpoint: &str, watermark: i32) -> (r: String)
    requires
        watermark >= 0,
    ensures
        r@ == endpoint@ + list_segment() + decimal_of(watermark as nat),
{
    let digits = format_decimal(watermark as u32);
    let r = String::from_str(endpoint).concat("/metadata/list?jid=").concat(digits.as_str());
    proof {
        reveal_strlit("/metadata/list?jid=");
        assert("/metadata/list?jid="@ =~= list_segment());
        assert(r@ =~= endpoint@ + list_segment() + decimal_of(watermark as nat));
    }
    r
}

/// The URL commit requests are posted to.
pub fn commit_request_url(endpoint: &str) -> (r: String)
    ensures
        r@ == endpoint@ + commit_segment(),
{
    let r = String::from_str(endpoint).concat("/metadata/commit");
    proof {
        reveal_strlit("/metadata/commit");
        assert("/metadata/commit"@ =~= commit_segment());
        assert(r@ =~= endpoint@ + commit_segment());
    }
    r
}

/// Unfolds `join_ids` over a prefix: joining `ids[0..i+1]` appends the
/// `i`-th id, for `i >= 1`.
proof fn lemma_join_split(ids: Seq<Seq<char>>, i: int)
    requires
        1 <= i < ids.len(),
    ensures
        join_ids(ids.subrange(0, i + 1)) == join_ids(ids.subrange(0, i)) + seq![','] + ids[i],
    decreases i,
{
    let pre = ids.subrange(0, i + 1);
    let shorter = ids.subrange(0, i);
    if i == 1 {
        assert(pre.drop_first() =~= seq![ids[1]]);
        assert(join_ids(pre.drop_first()) == ids[1]);
        assert(shorter =~= seq![ids[0]]);
        assert(join_ids(shorter) == ids[0]);
        assert(pre[0] == ids[0]);
    } else {
        lemma_join_split(ids.drop_first(), i - 1);
        assert(pre.drop_first() =~= ids.drop_first().subrange(0, i));
        assert(shorter.drop_first() =~= ids.drop_first().subrange(0, i - 1));
        assert(ids.drop_first()[i - 1] == ids[i]);
        assert(pre[0] == ids[0]);
        assert(shorter[0] == ids[0]);
        assert(join_ids(pre) == pre[0] + seq![','] + join_ids(pre.drop_first()));
        assert(join_ids(shorter) == shorter[0] + seq![','] + join_ids(shorter.drop_first()));
    }
}

} // verus!
