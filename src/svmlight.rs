//! The SVMlight / RankLib line format:
//! `<label> qid:<q> <fid>:<value> ... # comment`.
//! A line is split into its fields; numbers in the label and value
//! positions are kept as text, to be read as binary64 numbers by the caller.
use vstd::prelude::*;

verus! {

/// Why a line is not an instance.
#[derive(PartialEq, Eq, Structural, Clone, Copy, Debug)]
pub enum ParseError {
    /// A meta line (starting with `@`), which is not supported.
    Meta,
    /// Fewer than two fields before the comment.
    MissingFields,
    /// The second field is not `qid:<unsigned integer>`.
    BadQid,
    /// A feature field is not `<positive integer id>:<value>`.
    BadFeature,
}

/// The fields of one instance line.
pub struct ParsedLine {
    /// The text of the label.
    pub label: Vec<u8>,
    pub qid: u64,
    /// Each feature's id and the text of its value, in line order.
    pub features: Vec<(u64, Vec<u8>)>,
}

/// ASCII whitespace: space, tab, line feed, vertical tab, form feed,
/// carriage return.
pub open spec fn is_space(b: u8) -> bool {
    b == 32 || (9 <= b <= 13)
}

/// The position of the first `#` in `s`, or its length.
pub open spec fn comment_start(s: Seq<u8>) -> int
    decreases s.len(),
{
    if s.len() == 0 {
        0
    } else if comment_start(s.drop_last()) < s.len() - 1 {
        comment_start(s.drop_last())
    } else if s.last() == 35 {
        s.len() - 1
    } else {
        s.len() as int
    }
}

/// The maximal runs of non-space bytes of `s`, in order.
pub open spec fn tokens(s: Seq<u8>) -> Seq<Seq<u8>>
    decreases s.len(),
{
    if s.len() == 0 {
        Seq::empty()
    } else {
        let t = tokens(s.drop_last());
        if is_space(s.last()) {
            t
        } else if s.len() >= 2 && !is_space(s[s.len() - 2]) {
            t.drop_last().push(t.last().push(s.last()))
        } else {
            t.push(seq![s.last()])
        }
    }
}

/// The fields of a line: the tokens before its comment.
pub open spec fn fields(line: Seq<u8>) -> Seq<Seq<u8>> {
    tokens(line.take(comment_start(line)))
}

/// The number of `:` bytes in `t`.
pub open spec fn colons(t: Seq<u8>) -> nat
    decreases t.len(),
{
    if t.len() == 0 {
        0
    } else {
        colons(t.drop_last()) + if t.last() == 58 { 1nat } else { 0nat }
    }
}

/// The position of the first `:` in `t`, or its length.
pub open spec fn colon_at(t: Seq<u8>) -> int
    decreases t.len(),
{
    if t.len() == 0 {
        0
    } else if colon_at(t.drop_last()) < t.len() - 1 {
        colon_at(t.drop_last())
    } else if t.last() == 58 {
        t.len() - 1
    } else {
        t.len() as int
    }
}

/// The two sides of a field that holds exactly one `:`.
pub open spec fn colon_pair(t: Seq<u8>) -> Option<(Seq<u8>, Seq<u8>)> {
    if colons(t) == 1 {
        Some((t.take(colon_at(t)), t.skip(colon_at(t) + 1)))
    } else {
        None
    }
}

/// The value of a sequence of decimal digits.
pub open spec fn decimal(s: Seq<u8>) -> nat
    decreases s.len(),
{
    if s.len() == 0 {
        0
    } else {
        decimal(s.drop_last()) * 10 + (s.last() - 48) as nat
    }
}

/// Every byte of `s` is a decimal digit.
pub open spec fn all_digits(s: Seq<u8>) -> bool {
    forall|i: int| 0 <= i < s.len() ==> 48 <= #[trigger] s[i] <= 57
}

/// An unsigned integer in decimal, with an optional leading `+`, that
/// fits in 64 bits.
pub open spec fn u64_of(s: Seq<u8>) -> Option<u64> {
    let d = if s.len() > 0 && s[0] == 43 { s.drop_first() } else { s };
    if d.len() > 0 && all_digits(d) && decimal(d) <= u64::MAX {
        Some(decimal(d) as u64)
    } else {
        None
    }
}

/// The query id of a `qid:<q>` field.
pub open spec fn qid_of(t: Seq<u8>) -> Option<u64> {
    match colon_pair(t) {
        Some((name, q)) => if name == seq![113u8, 105u8, 100u8] { u64_of(q) } else { None },
        None => None,
    }
}

/// The id and value text of a `<fid>:<value>` field; the id is positive
/// and the value is not empty.
pub open spec fn feature_of(t: Seq<u8>) -> Option<(u64, Seq<u8>)> {
    match colon_pair(t) {
        Some((id, v)) => match u64_of(id) {
            Some(n) => if n >= 1 && v.len() > 0 { Some((n, v)) } else { None },
            None => None,
        },
        None => None,
    }
}

/// The outcome of parsing a line with the given fields.
pub open spec fn line_error(f: Seq<Seq<u8>>) -> Option<ParseError> {
    if f.len() > 0 && f[0].len() > 0 && f[0][0] == 64 {
        Some(ParseError::Meta)
    } else if f.len() < 2 {
        Some(ParseError::MissingFields)
    } else if qid_of(f[1]).is_none() {
        Some(ParseError::BadQid)
    } else if exists|j: int| 2 <= j < f.len() && (#[trigger] feature_of(f[j])).is_none() {
        Some(ParseError::BadFeature)
    } else {
        None
    }
}

} // verus!

verus! {

proof fn lemma_comment_start_stays(s: Seq<u8>, k: int, k2: int)
    requires
        0 <= k <= k2 <= s.len(),
        comment_start(s.take(k)) < k,
    ensures
        comment_start(s.take(k2)) == comment_start(s.take(k)),
    decreases k2 - k,
{
    if k2 > k {
        lemma_comment_start_stays(s, k, k2 - 1);
        assert(s.take(k2).drop_last() =~= s.take(k2 - 1));
    }
}

/// Returns the position of the first `#` in `line`, or its length.
fn find_comment(line: &[u8]) -> (r: usize)
    ensures
        r == comment_start(line@),
{
    let n = line.len();
    let mut i: usize = 0;
    while i < n
        invariant
            n == line@.len(),
            i <= n,
            comment_start(line@.take(i as int)) == i,
        decreases n - i,
    {
        assert(line@.take(i as int + 1).drop_last() =~= line@.take(i as int));
        if line[i] == 35 {
            proof {
                lemma_comment_start_stays(line@, i as int + 1, n as int);
                assert(line@.take(n as int) =~= line@);
            }
            return i;
        }
        i += 1;
    }
    assert(line@.take(n as int) =~= line@);
    i
}

/// Splits `line[..end]` into its maximal runs of non-space bytes.
fn split_fields(line: &[u8], end: usize) -> (r: Vec<Vec<u8>>)
    requires
        end <= line@.len(),
    ensures
        r@.len() == tokens(line@.take(end as int)).len(),
        forall|k: int| 0 <= k < r@.len() ==> (#[trigger] r@[k])@ == tokens(line@.take(end as int))[k],
{
    let mut toks: Vec<Vec<u8>> = Vec::new();
    let mut cur: Vec<u8> = Vec::new();
    let ghost mut done: Seq<Seq<u8>> = Seq::empty();
    let mut i: usize = 0;
    while i < end
        invariant
            end <= line@.len(),
            i <= end,
            toks@.len() == done.len(),
            forall|k: int| 0 <= k < toks@.len() ==> (#[trigger] toks@[k])@ == done[k],
            cur@.len() > 0 <==> (i > 0 && !is_space(line@[i - 1])),
            tokens(line@.take(i as int)) == (if cur@.len() > 0 { done.push(cur@) } else { done }),
        decreases end - i,
    {
        let b = line[i];
        let ghost s = line@.take(i as int + 1);
        assert(s.drop_last() =~= line@.take(i as int));
        assert(s.last() == b);
        if b == 32 || (9 <= b && b <= 13) {
            if cur.len() > 0 {
                proof {
                    done = done.push(cur@);
                }
                toks.push(cur);
                cur = Vec::new();
            }
        } else {
            proof {
                if i > 0 {
                    assert(s[s.len() - 2] == line@[i - 1]);
                }
            }
            let ghost old_cur = cur@;
            cur.push(b);
            proof {
                if old_cur.len() > 0 {
                    assert(done.push(old_cur).drop_last() =~= done);
                    assert(tokens(s) == done.push(old_cur).drop_last().push(done.push(old_cur).last().push(b)));
                    assert(tokens(s) =~= done.push(cur@));
                } else {
                    assert(cur@ =~= seq![b]);
                }
            }
        }
        i += 1;
    }
    if cur.len() > 0 {
        proof {
            done = done.push(cur@);
        }
        toks.push(cur);
    }
    toks
}

} // verus!

verus! {

/// Copies `t[from..to]`.
fn copy_range(t: &Vec<u8>, from: usize, to: usize) -> (r: Vec<u8>)
    requires
        from <= to <= t@.len(),
    ensures
        r@ == t@.subrange(from as int, to as int),
{
    let mut r: Vec<u8> = Vec::new();
    let mut i: usize = from;
    while i < to
        invariant
            from <= i <= to <= t@.len(),
            r@ == t@.subrange(from as int, i as int),
        decreases to - i,
    {
        r.push(t[i]);
        assert(t@.subrange(from as int, i as int + 1) =~= t@.subrange(from as int, i as int).push(t@[i as int]));
        i += 1;
    }
    r
}

/// Splits a field at its single `:`; `None` when it holds no `:` or more
/// than one.
fn split_colon(t: &Vec<u8>) -> (r: Option<(Vec<u8>, Vec<u8>)>)
    ensures
        match colon_pair(t@) {
            Some((a, b)) => r matches Some(p) && p.0@ == a && p.1@ == b,
            None => r.is_none(),
        },
{
    let n = t.len();
    let mut count: usize = 0;
    let mut pos: usize = 0;
    let mut i: usize = 0;
    while i < n
        invariant
            n == t@.len(),
            i <= n,
            count == colons(t@.take(i as int)),
            count <= i,
            pos == colon_at(t@.take(i as int)),
            pos <= i,
        decreases n - i,
    {
        assert(t@.take(i as int + 1).drop_last() =~= t@.take(i as int));
        if t[i] == 58 {
            count += 1;
        }
        if pos == i {
            if t[i] == 58 {
                pos = i;
            } else {
                pos = i + 1;
            }
        }
        i += 1;
    }
    assert(t@.take(n as int) =~= t@);
    if count != 1 {
        return None;
    }
    proof {
        lemma_colon_at_bound(t@);
    }
    let a = copy_range(t, 0, pos);
    let b = copy_range(t, pos + 1, n);
    assert(a@ =~= t@.take(pos as int));
    assert(b@ =~= t@.skip(pos as int + 1));
    Some((a, b))
}

/// A field with a `:` has its first `:` inside it.
proof fn lemma_colon_at_bound(t: Seq<u8>)
    ensures
        0 <= colon_at(t) <= t.len(),
        colon_at(t) < t.len() <==> colons(t) > 0,
        colon_at(t) < t.len() ==> t[colon_at(t)] == 58,
    decreases t.len(),
{
    if t.len() > 0 {
        let p = t.drop_last();
        lemma_colon_at_bound(p);
        if colon_at(p) < p.len() {
            assert(colon_at(t) == colon_at(p));
            assert(t[colon_at(p)] == p[colon_at(p)]);
        }
    }
}

/// A longer run of digits never has a smaller value.
proof fn lemma_decimal_prefix(s: Seq<u8>, k: int)
    requires
        all_digits(s),
        0 <= k <= s.len(),
    ensures
        decimal(s.take(k)) <= decimal(s),
    decreases s.len(),
{
    if k < s.len() {
        let init = s.drop_last();
        assert(all_digits(init)) by {
            assert forall|i: int| 0 <= i < init.len() implies 48 <= #[trigger] init[i] <= 57 by {
                assert(init[i] == s[i]);
            }
        }
        lemma_decimal_prefix(init, k);
        assert(init.take(k) =~= s.take(k));
        assert(decimal(init) <= decimal(s)) by (nonlinear_arith)
            requires decimal(s) == decimal(init) * 10 + (s.last() - 48) as nat;
    } else {
        assert(s.take(k) =~= s);
    }
}

/// Reads an unsigned decimal integer with an optional leading `+`;
/// `None` when the text is not one or does not fit in 64 bits.
fn parse_u64(s: &Vec<u8>) -> (r: Option<u64>)
    ensures
        r == u64_of(s@),
{
    let n = s.len();
    let start: usize = if n > 0 && s[0] == 43 { 1 } else { 0 };
    let ghost d = if s@.len() > 0 && s@[0] == 43 { s@.drop_first() } else { s@ };
    assert(d =~= s@.subrange(start as int, n as int));
    assert(u64_of(s@) == (if d.len() > 0 && all_digits(d) && decimal(d) <= u64::MAX { Some(decimal(d) as u64) } else { None }));
    if start == n {
        return None;
    }
    let mut val: u64 = 0;
    let mut i: usize = start;
    while i < n
        invariant
            n == s@.len(),
            start <= i <= n,
            d == s@.subrange(start as int, n as int),
            u64_of(s@) == (if d.len() > 0 && all_digits(d) && decimal(d) <= u64::MAX { Some(decimal(d) as u64) } else { None }),
            all_digits(d.take(i - start)),
            val == decimal(d.take(i - start)),
        decreases n - i,
    {
        let b = s[i];
        assert(d[i - start] == b);
        if b < 48 || b > 57 {
            assert(!all_digits(d));
            return None;
        }
        let digit: u64 = (b - 48) as u64;
        assert(d.take(i - start + 1).drop_last() =~= d.take(i - start));
        assert(decimal(d.take(i - start + 1)) == val * 10 + digit);
        if val > 1844674407370955161 || (val == 1844674407370955161 && digit > 5) {
            proof {
                assert(val * 10 + digit > u64::MAX) by (nonlinear_arith)
                    requires val > 1844674407370955161 || (val == 1844674407370955161 && digit > 5);
                if all_digits(d) {
                    lemma_decimal_prefix(d, i - start + 1);
                }
            }
            return None;
        }
        assert(val * 10 + digit <= u64::MAX) by (nonlinear_arith)
            requires !(val > 1844674407370955161 || (val == 1844674407370955161 && digit > 5)), digit <= 9;
        val = val * 10 + digit;
        assert(all_digits(d.take(i - start + 1))) by {
            assert forall|t: int| 0 <= t < i - start + 1 implies 48 <= #[trigger] d.take(i - start + 1)[t] <= 57 by {
                if t < i - start {
                    assert(d.take(i - start + 1)[t] == d.take(i - start)[t]);
                }
            }
        }
        i += 1;
    }
    assert(d.take(n - start) =~= d);
    Some(val)
}

} // verus!

verus! {

/// `p` holds the label text, query id and features of the fields `f`.
pub open spec fn parsed_as(p: ParsedLine, f: Seq<Seq<u8>>) -> bool {
    &&& f.len() >= 2
    &&& p.label@ == f[0]
    &&& qid_of(f[1]) == Some(p.qid)
    &&& p.features@.len() == f.len() - 2
    &&& forall|j: int| 0 <= j < p.features@.len() ==> feature_of(f[j + 2]) == Some(((#[trigger] p.features@[j]).0, p.features@[j].1@))
}

/// Reads the query id of a `qid:<q>` field.
fn parse_qid(t: &Vec<u8>) -> (r: Option<u64>)
    ensures
        r == qid_of(t@),
{
    match split_colon(t) {
        Some((name, q)) => {
            if name.len() == 3 && name[0] == 113 && name[1] == 105 && name[2] == 100 {
                assert(name@ =~= seq![113u8, 105u8, 100u8]);
                parse_u64(&q)
            } else {
                assert(name@ != seq![113u8, 105u8, 100u8]) by {
                    if name@.len() == 3 {
                        assert(name@[0] == seq![113u8, 105u8, 100u8][0] ==> name@[1] != seq![113u8, 105u8, 100u8][1]
                            || name@[2] != seq![113u8, 105u8, 100u8][2] || name@[0] != 113);
                    }
                }
                None
            }
        },
        None => None,
    }
}

/// Reads the id and value text of a `<fid>:<value>` field.
fn parse_feature(t: &Vec<u8>) -> (r: Option<(u64, Vec<u8>)>)
    ensures
        match feature_of(t@) {
            Some((n, v)) => r matches Some(p) && p.0 == n && p.1@ == v,
            None => r.is_none(),
        },
{
    match split_colon(t) {
        Some((id, v)) => match parse_u64(&id) {
            Some(n) => {
                if n >= 1 && v.len() > 0 {
                    Some((n, v))
                } else {
                    None
                }
            },
            None => None,
        },
        None => None,
    }
}

/// Parses one line of an SVMlight file into its fields. The comment after
/// `#` is ignored. Errors, in this order of precedence: a meta line
/// (first field starts with `@`), fewer than two fields, a bad `qid:`
/// field, a bad feature field.
pub fn parse_line(line: &[u8]) -> (r: Result<ParsedLine, ParseError>)
    ensures
        match line_error(fields(line@)) {
            Some(e) => r == Err::<ParsedLine, ParseError>(e),
            None => r matches Ok(p) && parsed_as(p, fields(line@)),
        },
{
    let end = find_comment(line);
    let f = split_fields(line, end);
    let ghost fs = fields(line@);
    assert(f@.len() == fs.len());
    if f.len() > 0 && f[0].len() > 0 && f[0][0] == 64 {
        assert(fs[0] == f@[0]@);
        return Err(ParseError::Meta);
    }
    proof {
        if fs.len() > 0 {
            assert(fs[0] == f@[0]@);
        }
    }
    if f.len() < 2 {
        return Err(ParseError::MissingFields);
    }
    assert(fs[1] == f@[1]@);
    let qid = match parse_qid(&f[1]) {
        Some(q) => q,
        None => {
            return Err(ParseError::BadQid);
        },
    };
    let mut features: Vec<(u64, Vec<u8>)> = Vec::new();
    let mut j: usize = 2;
    while j < f.len()
        invariant
            fs == fields(line@),
            f@.len() == fs.len(),
            !(fs.len() > 0 && fs[0].len() > 0 && fs[0][0] == 64),
            qid_of(fs[1]) == Some(qid),
            forall|k: int| 0 <= k < f@.len() ==> (#[trigger] f@[k])@ == fs[k],
            2 <= j <= f@.len(),
            features@.len() == j - 2,
            forall|k: int| 0 <= k < features@.len() ==> feature_of(fs[k + 2]) == Some(((#[trigger] features@[k]).0, features@[k].1@)),
        decreases f@.len() - j,
    {
        assert(fs[j as int] == f@[j as int]@);
        match parse_feature(&f[j]) {
            Some(p) => {
                features.push(p);
            },
            None => {
                assert(feature_of(fs[j as int]).is_none());
                return Err(ParseError::BadFeature);
            },
        }
        j += 1;
    }
    proof {
        assert forall|k: int| 2 <= k < fs.len() implies (#[trigger] feature_of(fs[k])).is_some() by {
            assert(features@[k - 2] == features@[k - 2]);
        }
    }
    let label = copy_range(&f[0], 0, f[0].len());
    assert(label@ =~= fs[0]);
    Ok(ParsedLine { label, qid, features })
}

/// Whether a line holds an instance: it is not blank and its first
/// non-space byte is not `#`.
pub fn is_data_line(line: &[u8]) -> (r: bool)
    ensures
        r == (tokens(line@).len() > 0 && tokens(line@)[0][0] != 35),
{
    let f = split_fields(line, line.len());
    assert(line@.take(line@.len() as int) =~= line@);
    if f.len() == 0 {
        return false;
    }
    proof {
        lemma_tokens_nonempty(line@);
    }
    assert(f@[0]@ == tokens(line@)[0]);
    f[0][0] != 35
}

/// Every token holds at least one byte.
proof fn lemma_tokens_nonempty(s: Seq<u8>)
    ensures
        forall|k: int| 0 <= k < tokens(s).len() ==> (#[trigger] tokens(s)[k]).len() > 0,
        s.len() > 0 && !is_space(s.last()) ==> tokens(s).len() > 0,
    decreases s.len(),
{
    if s.len() > 0 {
        let p = s.drop_last();
        lemma_tokens_nonempty(p);
        let t = tokens(p);
        if !is_space(s.last()) && s.len() >= 2 && !is_space(s[s.len() - 2]) {
            assert(p.last() == s[s.len() - 2]);
            assert forall|k: int| 0 <= k < tokens(s).len() implies (#[trigger] tokens(s)[k]).len() > 0 by {
                if k < t.len() - 1 {
                    assert(tokens(s)[k] == t[k]);
                }
            }
        } else if !is_space(s.last()) {
            assert forall|k: int| 0 <= k < tokens(s).len() implies (#[trigger] tokens(s)[k]).len() > 0 by {
                if k < t.len() {
                    assert(tokens(s)[k] == t[k]);
                }
            }
        }
    }
}

} // verus!
