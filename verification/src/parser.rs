//! Reading a CNF formula in DIMACS form: comment (`c`) and header (`p`) lines
//! are skipped; every other line holds clauses, each ended by ` 0`.
use vstd::prelude::*;
use crate::formula::literal::Literal;
use crate::formula::problem::{
    extends, lemma_lists_prefix, occurrence_list, watch_list, watched_count, Problem, VariableIndex,
};
use crate::trail::Trail;
use crate::watching::watches_complete;

verus! {

/// Unicode's White_Space characters: those for which `char::is_whitespace` holds.
pub open spec fn is_whitespace_spec(c: char) -> bool {
    let u = c as u32;
    ||| 0x09 <= u <= 0x0D
    ||| u == 0x20
    ||| u == 0x85
    ||| u == 0xA0
    ||| u == 0x1680
    ||| 0x2000 <= u <= 0x200A
    ||| u == 0x2028
    ||| u == 0x2029
    ||| u == 0x202F
    ||| u == 0x205F
    ||| u == 0x3000
}

/// `char::is_whitespace`
pub fn is_whitespace(c: char) -> (b: bool)
    ensures
        b == is_whitespace_spec(c),
{
    let u = c as u32;
    (0x09 <= u && u <= 0x0D) || u == 0x20 || u == 0x85 || u == 0xA0 || u == 0x1680 || (0x2000 <= u
        && u <= 0x200A) || u == 0x2028 || u == 0x2029 || u == 0x202F || u == 0x205F || u == 0x3000
}

/// `s` without its trailing whitespace (`str::trim_end`).
pub open spec fn trim_end_spec(s: Seq<char>) -> Seq<char>
    decreases s.len(),
{
    if s.len() > 0 && is_whitespace_spec(s.last()) {
        trim_end_spec(s.drop_last())
    } else {
        s
    }
}

/// The pieces of `s` between occurrences of `" 0"`, read from the left, the
/// first piece starting with `cur` (`str::split(" 0")`).
pub open spec fn split_zero_spec(s: Seq<char>, cur: Seq<char>) -> Seq<Seq<char>>
    decreases s.len(),
{
    if s.len() == 0 {
        seq![cur]
    } else if s.len() >= 2 && s[0] == ' ' && s[1] == '0' {
        seq![cur] + split_zero_spec(s.skip(2), Seq::<char>::empty())
    } else {
        split_zero_spec(s.skip(1), cur.push(s[0]))
    }
}

/// The maximal runs of non-whitespace characters of `s`, the first one
/// starting with `cur` (`str::split_whitespace`).
pub open spec fn tokens_spec(s: Seq<char>, cur: Seq<char>) -> Seq<Seq<char>>
    decreases s.len(),
{
    if s.len() == 0 {
        if cur.len() > 0 { seq![cur] } else { Seq::<Seq<char>>::empty() }
    } else if is_whitespace_spec(s[0]) {
        (if cur.len() > 0 { seq![cur] } else { Seq::<Seq<char>>::empty() }) + tokens_spec(s.skip(1), Seq::<char>::empty())
    } else {
        tokens_spec(s.skip(1), cur.push(s[0]))
    }
}

pub open spec fn is_digit_spec(c: char) -> bool {
    0x30 <= (c as u32) <= 0x39
}

/// The number written by the decimal digits `ds`.
pub open spec fn digits_value(ds: Seq<char>) -> nat
    decreases ds.len(),
{
    if ds.len() == 0 {
        0
    } else {
        digits_value(ds.drop_last()) * 10 + ((ds.last() as u32) - 0x30) as nat
    }
}

/// `t` without its sign, if it has one.
pub open spec fn unsigned_part(t: Seq<char>) -> Seq<char> {
    if t.len() > 0 && (t[0] == '-' || t[0] == '+') { t.skip(1) } else { t }
}

pub open spec fn all_digits(ds: Seq<char>) -> bool {
    forall|i: int| 0 <= i < ds.len() ==> is_digit_spec(#[trigger] ds[i])
}

/// The `isize` that `t` writes (`str::parse::<isize>`): an optional sign, then
/// one or more decimal digits, with a value that fits.
pub open spec fn parse_isize_spec(t: Seq<char>) -> Option<isize> {
    let negative = t.len() > 0 && t[0] == '-';
    let ds = unsigned_part(t);
    let value: int = if negative { -(digits_value(ds) as int) } else { digits_value(ds) as int };
    if ds.len() == 0 || !all_digits(ds) {
        None
    } else if isize::MIN <= value <= isize::MAX {
        Some(value as isize)
    } else {
        None
    }
}

/// The character sequences that the vectors hold.
pub open spec fn views(v: Seq<Vec<char>>) -> Seq<Seq<char>> {
    v.map_values(|x: Vec<char>| x@)
}

/// `line` without its trailing whitespace.
pub fn trim_end(line: &Vec<char>) -> (r: Vec<char>)
    ensures
        r@ == trim_end_spec(line@),
{
    let mut j: usize = line.len();
    assert(line@.take(j as int) =~= line@);
    while j > 0 && is_whitespace(line[j - 1])
        invariant
            j <= line@.len(),
            trim_end_spec(line@.take(j as int)) == trim_end_spec(line@),
        decreases j,
    {
        assert(line@.take(j as int).drop_last() =~= line@.take(j - 1));
        j -= 1;
    }
    let mut r: Vec<char> = Vec::new();
    let mut i: usize = 0;
    while i < j
        invariant
            i <= j <= line@.len(),
            r@ == line@.take(i as int),
        decreases j - i,
    {
        r.push(line[i]);
        i += 1;
        assert(r@ =~= line@.take(i as int));
    }
    r
}

/// The pieces of `s` between occurrences of `" 0"`.
pub fn split_zero(s: &Vec<char>) -> (r: Vec<Vec<char>>)
    ensures
        views(r@) == split_zero_spec(s@, Seq::<char>::empty()),
{
    let mut pieces: Vec<Vec<char>> = Vec::new();
    let mut cur: Vec<char> = Vec::new();
    let mut i: usize = 0;
    assert(s@.skip(0) =~= s@);
    assert(views(pieces@) =~= Seq::<Seq<char>>::empty());
    assert(cur@ =~= Seq::<char>::empty());
    assert(views(pieces@) + split_zero_spec(s@, Seq::<char>::empty()) =~= split_zero_spec(s@, Seq::<char>::empty()));
    while i < s.len()
        invariant
            i <= s@.len(),
            views(pieces@) + split_zero_spec(s@.skip(i as int), cur@) == split_zero_spec(s@, Seq::<char>::empty()),
        decreases s@.len() - i,
    {
        let ghost rest = s@.skip(i as int);
        if i + 1 < s.len() && s[i] == ' ' && s[i + 1] == '0' {
            proof {
                assert(rest[0] == ' ' && rest[1] == '0');
                assert(rest.skip(2) =~= s@.skip(i + 2));
                assert(views(pieces@.push(cur)) =~= views(pieces@).push(cur@));
                assert(views(pieces@) + (seq![cur@] + split_zero_spec(s@.skip(i + 2), Seq::<char>::empty()))
                    =~= views(pieces@).push(cur@) + split_zero_spec(s@.skip(i + 2), Seq::<char>::empty()));
            }
            pieces.push(cur);
            cur = Vec::new();
            i += 2;
        } else {
            proof {
                assert(rest[0] == s@[i as int]);
                assert(rest.skip(1) =~= s@.skip(i + 1));
            }
            cur.push(s[i]);
            i += 1;
        }
    }
    proof {
        assert(s@.skip(i as int) =~= Seq::<char>::empty());
        assert(views(pieces@.push(cur)) =~= views(pieces@) + seq![cur@]);
    }
    pieces.push(cur);
    pieces
}

/// The maximal runs of non-whitespace characters of `s`.
pub fn tokens(s: &Vec<char>) -> (r: Vec<Vec<char>>)
    ensures
        views(r@) == tokens_spec(s@, Seq::<char>::empty()),
{
    let mut out: Vec<Vec<char>> = Vec::new();
    let mut cur: Vec<char> = Vec::new();
    let mut i: usize = 0;
    assert(s@.skip(0) =~= s@);
    assert(views(out@) =~= Seq::<Seq<char>>::empty());
    assert(cur@ =~= Seq::<char>::empty());
    assert(views(out@) + tokens_spec(s@, Seq::<char>::empty()) =~= tokens_spec(s@, Seq::<char>::empty()));
    while i < s.len()
        invariant
            i <= s@.len(),
            views(out@) + tokens_spec(s@.skip(i as int), cur@) == tokens_spec(s@, Seq::<char>::empty()),
        decreases s@.len() - i,
    {
        let ghost rest = s@.skip(i as int);
        let ghost old_cur = cur@;
        proof {
            assert(rest[0] == s@[i as int]);
            assert(rest.skip(1) =~= s@.skip(i + 1));
        }
        if is_whitespace(s[i]) {
            assert(tokens_spec(rest, old_cur) == (if old_cur.len() > 0 { seq![old_cur] } else {
                Seq::<Seq<char>>::empty()
            }) + tokens_spec(s@.skip(i + 1), Seq::<char>::empty()));
            if cur.len() > 0 {
                proof {
                    assert(views(out@.push(cur)) =~= views(out@).push(cur@));
                    assert(views(out@) + (seq![cur@] + tokens_spec(s@.skip(i + 1), Seq::<char>::empty()))
                        =~= views(out@).push(cur@) + tokens_spec(s@.skip(i + 1), Seq::<char>::empty()));
                }
                out.push(cur);
                cur = Vec::new();
            } else {
                assert(cur@ =~= Seq::<char>::empty());
                assert(Seq::<Seq<char>>::empty() + tokens_spec(s@.skip(i + 1), Seq::<char>::empty())
                    =~= tokens_spec(s@.skip(i + 1), Seq::<char>::empty()));
            }
        } else {
            assert(tokens_spec(rest, old_cur) == tokens_spec(s@.skip(i + 1), old_cur.push(s@[i as int])));
            cur.push(s[i]);
        }
        i += 1;
    }
    proof {
        assert(s@.skip(i as int) =~= Seq::<char>::empty());
    }
    if cur.len() > 0 {
        proof {
            assert(views(out@.push(cur)) =~= views(out@) + seq![cur@]);
        }
        out.push(cur);
    } else {
        assert(views(out@) + Seq::<Seq<char>>::empty() =~= views(out@));
    }
    out
}

proof fn lemma_digits_step(ds: Seq<char>, k: int)
    requires
        0 <= k < ds.len(),
    ensures
        digits_value(ds.take(k + 1)) == digits_value(ds.take(k)) * 10 + ((ds[k] as u32) - 0x30) as nat,
{
    assert(ds.take(k + 1).drop_last() =~= ds.take(k));
    assert(ds.take(k + 1).last() == ds[k]);
}

/// The `isize` that `t` writes, if any (`str::parse::<isize>`).
pub fn parse_isize(t: &Vec<char>) -> (r: Option<isize>)
    ensures
        r == parse_isize_spec(t@),
{
    let len = t.len();
    if len == 0 {
        return None;
    }
    let negative = t[0] == '-';
    let start: usize = if t[0] == '-' || t[0] == '+' { 1 } else { 0 };
    let ghost ds = unsigned_part(t@);
    assert(ds =~= t@.skip(start as int));
    if start == len {
        return None;
    }
    let cap: u128 = 0x1_0000_0000_0000_0000;
    let mut acc: u128 = 0;
    let mut big = false;
    let mut i: usize = start;
    assert(ds.take(0) =~= Seq::<char>::empty());
    while i < len
        invariant
            start <= i <= len,
            len == t@.len(),
            ds == t@.skip(start as int),
            ds == unsigned_part(t@),
            negative == (t@.len() > 0 && t@[0] == '-'),
            cap == 0x1_0000_0000_0000_0000u128,
            forall|k: int| 0 <= k < i - start ==> is_digit_spec(#[trigger] ds[k]),
            !big ==> acc == digits_value(ds.take(i - start)) && acc <= cap,
            big ==> digits_value(ds.take(i - start)) > cap,
        decreases len - i,
    {
        let c = t[i];
        let k: usize = i - start;
        assert(ds[k as int] == c);
        let u = c as u32;
        if !(u >= 0x30 && u <= 0x39) {
            assert(!is_digit_spec(ds[k as int]));
            assert(0 <= k < ds.len());
            assert(!(forall|i: int| 0 <= i < ds.len() ==> is_digit_spec(#[trigger] ds[i])));
            return None;
        }
        proof {
            lemma_digits_step(ds, k as int);
        }
        let d: u128 = (u - 0x30) as u128;
        if !big {
            assert(acc * 10 + d <= 0x1_0000_0000_0000_0000u128 * 10 + 9) by (nonlinear_arith)
                requires
                    acc <= 0x1_0000_0000_0000_0000u128,
                    d <= 9,
            ;
            let nv = acc * 10 + d;
            if nv > cap {
                big = true;
            } else {
                acc = nv;
            }
        } else {
            assert(digits_value(ds.take(k + 1)) >= digits_value(ds.take(k as int))) by (nonlinear_arith)
                requires
                    digits_value(ds.take(k + 1)) == digits_value(ds.take(k as int)) * 10 + ((ds[k as int] as u32) - 0x30) as nat,
            ;
        }
        i += 1;
    }
    assert(ds.take(len - start) =~= ds);
    if big {
        return None;
    }
    if negative {
        if acc <= (isize::MAX as u128) + 1 {
            let v: i128 = -(acc as i128);
            Some(v as isize)
        } else {
            None
        }
    } else {
        if acc <= isize::MAX as u128 {
            Some(acc as isize)
        } else {
            None
        }
    }
}

/// The numbers written by the tokens `ts`, if each writes one.
pub open spec fn parse_tokens_spec(ts: Seq<Seq<char>>) -> Option<Seq<isize>>
    decreases ts.len(),
{
    if ts.len() == 0 {
        Some(Seq::<isize>::empty())
    } else {
        match (parse_tokens_spec(ts.drop_last()), parse_isize_spec(ts.last())) {
            (Some(a), Some(x)) => Some(a.push(x)),
            _ => None,
        }
    }
}

/// The clauses written by the pieces `ps` of a line: each non-empty piece is a
/// clause, whose literals are its whitespace-separated numbers.
pub open spec fn parse_pieces_spec(ps: Seq<Seq<char>>) -> Option<Seq<Seq<isize>>>
    decreases ps.len(),
{
    if ps.len() == 0 {
        Some(Seq::<Seq<isize>>::empty())
    } else {
        match parse_pieces_spec(ps.drop_last()) {
            None => None,
            Some(a) => if ps.last().len() == 0 {
                Some(a)
            } else {
                match parse_tokens_spec(tokens_spec(ps.last(), Seq::<char>::empty())) {
                    Some(c) => Some(a.push(c)),
                    None => None,
                }
            },
        }
    }
}

/// A line that starts with `c` or `p` holds no clause.
pub open spec fn is_skipped_line(line: Seq<char>) -> bool {
    line.len() > 0 && (line[0] == 'c' || line[0] == 'p')
}

/// The clauses of one line: the pieces of the line, without its trailing
/// whitespace, between occurrences of `" 0"`.
pub open spec fn line_clauses_spec(line: Seq<char>) -> Option<Seq<Seq<isize>>> {
    if is_skipped_line(line) {
        Some(Seq::<Seq<isize>>::empty())
    } else {
        parse_pieces_spec(split_zero_spec(trim_end_spec(line), Seq::<char>::empty()))
    }
}

/// The clauses of all the lines, in order; `None` if some token is not a number.
pub open spec fn parse_lines_spec(ls: Seq<Seq<char>>) -> Option<Seq<Seq<isize>>>
    decreases ls.len(),
{
    if ls.len() == 0 {
        Some(Seq::<Seq<isize>>::empty())
    } else {
        match (parse_lines_spec(ls.drop_last()), line_clauses_spec(ls.last())) {
            (Some(a), Some(b)) => Some(a + b),
            _ => None,
        }
    }
}

/// A line whose first character is `c` (a comment) or `p` (the header) holds
/// no clause, whatever follows, even nothing.
pub proof fn law_comment_and_header_lines_hold_no_clause(line: Seq<char>)
    requires
        line.len() >= 1,
        line[0] == 'c' || line[0] == 'p',
    ensures
        line_clauses_spec(line) == Some(Seq::<Seq<isize>>::empty()),
{
}

/// Adding a comment or header line to a DIMACS text changes none of its clauses,
/// and does not make a readable text unreadable.
pub proof fn law_comment_and_header_lines_change_nothing(ls: Seq<Seq<char>>, line: Seq<char>)
    requires
        line.len() >= 1,
        line[0] == 'c' || line[0] == 'p',
    ensures
        parse_lines_spec(ls.push(line)) == parse_lines_spec(ls),
{
    law_comment_and_header_lines_hold_no_clause(line);
    assert(ls.push(line).drop_last() =~= ls);
    if let Some(a) = parse_lines_spec(ls) {
        assert(a + Seq::<Seq<isize>>::empty() =~= a);
    }
}

pub open spec fn clause_views(v: Seq<Vec<isize>>) -> Seq<Seq<isize>> {
    v.map_values(|x: Vec<isize>| x@)
}

proof fn lemma_parse_tokens_none(ts: Seq<Seq<char>>, k: int)
    requires
        0 <= k <= ts.len(),
        parse_tokens_spec(ts.take(k)) is None,
    ensures
        parse_tokens_spec(ts) is None,
    decreases ts.len() - k,
{
    if k < ts.len() {
        assert(ts.take(k + 1).drop_last() =~= ts.take(k));
        lemma_parse_tokens_none(ts, k + 1);
    } else {
        assert(ts.take(k) =~= ts);
    }
}

proof fn lemma_parse_pieces_none(ps: Seq<Seq<char>>, k: int)
    requires
        0 <= k <= ps.len(),
        parse_pieces_spec(ps.take(k)) is None,
    ensures
        parse_pieces_spec(ps) is None,
    decreases ps.len() - k,
{
    if k < ps.len() {
        assert(ps.take(k + 1).drop_last() =~= ps.take(k));
        lemma_parse_pieces_none(ps, k + 1);
    } else {
        assert(ps.take(k) =~= ps);
    }
}

proof fn lemma_parse_lines_none(ls: Seq<Seq<char>>, k: int)
    requires
        0 <= k <= ls.len(),
        parse_lines_spec(ls.take(k)) is None,
    ensures
        parse_lines_spec(ls) is None,
    decreases ls.len() - k,
{
    if k < ls.len() {
        assert(ls.take(k + 1).drop_last() =~= ls.take(k));
        lemma_parse_lines_none(ls, k + 1);
    } else {
        assert(ls.take(k) =~= ls);
    }
}

/// The numbers written by the tokens, if each writes one.
fn parse_tokens(ts: &Vec<Vec<char>>) -> (r: Option<Vec<isize>>)
    ensures
        match r {
            Some(v) => parse_tokens_spec(views(ts@)) == Some(v@),
            None => parse_tokens_spec(views(ts@)) is None,
        },
{
    let ghost tv = views(ts@);
    let mut out: Vec<isize> = Vec::new();
    let mut i: usize = 0;
    assert(tv.take(0) =~= Seq::<Seq<char>>::empty());
    while i < ts.len()
        invariant
            i <= ts@.len(),
            tv == views(ts@),
            parse_tokens_spec(tv.take(i as int)) == Some(out@),
        decreases ts@.len() - i,
    {
        proof {
            assert(tv.take(i + 1).drop_last() =~= tv.take(i as int));
            assert(tv.take(i + 1).last() == ts@[i as int]@);
        }
        match parse_isize(&ts[i]) {
            Some(x) => out.push(x),
            None => {
                proof {
                    lemma_parse_tokens_none(tv, i + 1);
                }
                return None;
            },
        }
        i += 1;
    }
    assert(tv.take(i as int) =~= tv);
    Some(out)
}

/// The clauses written by the pieces of a line.
fn parse_pieces(ps: &Vec<Vec<char>>) -> (r: Option<Vec<Vec<isize>>>)
    ensures
        match r {
            Some(v) => parse_pieces_spec(views(ps@)) == Some(clause_views(v@)),
            None => parse_pieces_spec(views(ps@)) is None,
        },
{
    let ghost pv = views(ps@);
    let mut out: Vec<Vec<isize>> = Vec::new();
    let mut i: usize = 0;
    assert(pv.take(0) =~= Seq::<Seq<char>>::empty());
    assert(clause_views(out@) =~= Seq::<Seq<isize>>::empty());
    while i < ps.len()
        invariant
            i <= ps@.len(),
            pv == views(ps@),
            parse_pieces_spec(pv.take(i as int)) == Some(clause_views(out@)),
        decreases ps@.len() - i,
    {
        proof {
            assert(pv.take(i + 1).drop_last() =~= pv.take(i as int));
            assert(pv.take(i + 1).last() == ps@[i as int]@);
        }
        if ps[i].len() > 0 {
            let toks = tokens(&ps[i]);
            match parse_tokens(&toks) {
                Some(c) => {
                    proof {
                        assert(clause_views(out@.push(c)) =~= clause_views(out@).push(c@));
                    }
                    out.push(c);
                },
                None => {
                    proof {
                        lemma_parse_pieces_none(pv, i + 1);
                    }
                    return None;
                },
            }
        }
        i += 1;
    }
    assert(pv.take(i as int) =~= pv);
    Some(out)
}

/// The clauses of one line.
fn line_clauses(line: &Vec<char>) -> (r: Option<Vec<Vec<isize>>>)
    ensures
        match r {
            Some(v) => line_clauses_spec(line@) == Some(clause_views(v@)),
            None => line_clauses_spec(line@) is None,
        },
{
    if line.len() > 0 && (line[0] == 'c' || line[0] == 'p') {
        let out: Vec<Vec<isize>> = Vec::new();
        assert(clause_views(out@) =~= Seq::<Seq<isize>>::empty());
        return Some(out);
    }
    let trimmed = trim_end(line);
    let pieces = split_zero(&trimmed);
    parse_pieces(&pieces)
}

/// The clauses of all the lines of a DIMACS text, in order, each a list of
/// non-zero or zero literals as written; `None` when some token is not an
/// `isize`.
pub fn parse_clauses(lines: &Vec<Vec<char>>) -> (r: Option<Vec<Vec<isize>>>)
    ensures
        match r {
            Some(v) => parse_lines_spec(views(lines@)) == Some(clause_views(v@)),
            None => parse_lines_spec(views(lines@)) is None,
        },
{
    let ghost lv = views(lines@);
    let mut out: Vec<Vec<isize>> = Vec::new();
    let mut i: usize = 0;
    assert(lv.take(0) =~= Seq::<Seq<char>>::empty());
    assert(clause_views(out@) =~= Seq::<Seq<isize>>::empty());
    while i < lines.len()
        invariant
            i <= lines@.len(),
            lv == views(lines@),
            parse_lines_spec(lv.take(i as int)) == Some(clause_views(out@)),
        decreases lines@.len() - i,
    {
        proof {
            assert(lv.take(i + 1).drop_last() =~= lv.take(i as int));
            assert(lv.take(i + 1).last() == lines@[i as int]@);
        }
        match line_clauses(&lines[i]) {
            Some(cs) => {
                let mut cs = cs;
                let ghost before = out@;
                let ghost added = cs@;
                out.append(&mut cs);
                assert(clause_views(out@) =~= clause_views(before) + clause_views(added));
            },
            None => {
                proof {
                    lemma_parse_lines_none(lv, i + 1);
                }
                return None;
            },
        }
        i += 1;
    }
    assert(lv.take(i as int) =~= lv);
    Some(out)
}

/// Why a DIMACS text does not give a problem.
#[derive(Clone, Copy, PartialEq, Eq, Debug)]
pub enum CnfError {
    /// A token of a clause is not an `isize`
    InvalidNumber,
    /// A piece between two ` 0` holds only whitespace
    EmptyClause,
    /// A clause names variable 0
    ZeroVariable,
}

/// `|x|` (`isize::unsigned_abs`).
pub open spec fn abs_spec(x: isize) -> nat {
    if x < 0 { (-x) as nat } else { x as nat }
}

/// `isize::unsigned_abs`
pub fn unsigned_abs(x: isize) -> (r: usize)
    ensures
        r == abs_spec(x),
{
    if x < 0 {
        let y: i128 = -(x as i128);
        assert(y <= isize::MAX + 1);
        y as usize
    } else {
        x as usize
    }
}

pub open spec fn max_nat(a: nat, b: nat) -> nat {
    if a < b { b } else { a }
}

/// The largest `|x|` of the literals `c`.
pub open spec fn clause_max_abs(c: Seq<isize>) -> nat
    decreases c.len(),
{
    if c.len() == 0 { 0 } else { max_nat(clause_max_abs(c.drop_last()), abs_spec(c.last())) }
}

/// The largest `|x|` of the literals of all clauses: the number of variables.
pub open spec fn max_abs(cls: Seq<Seq<isize>>) -> nat
    decreases cls.len(),
{
    if cls.len() == 0 { 0 } else { max_nat(max_abs(cls.drop_last()), clause_max_abs(cls.last())) }
}

proof fn lemma_clause_max_abs(c: Seq<isize>)
    ensures
        forall|k: int| 0 <= k < c.len() ==> abs_spec(#[trigger] c[k]) <= clause_max_abs(c),
        clause_max_abs(c) <= isize::MAX + 1,
    decreases c.len(),
{
    if c.len() > 0 {
        lemma_clause_max_abs(c.drop_last());
        assert forall|k: int| 0 <= k < c.len() implies abs_spec(#[trigger] c[k]) <= clause_max_abs(c) by {
            if k < c.len() - 1 {
                assert(c.drop_last()[k] == c[k]);
            }
        }
    }
}

proof fn lemma_max_abs(cls: Seq<Seq<isize>>)
    ensures
        forall|i: int, k: int| 0 <= i < cls.len() && 0 <= k < cls[i].len() ==> abs_spec(#[trigger] cls[i][k]) <= max_abs(cls),
        max_abs(cls) <= isize::MAX + 1,
    decreases cls.len(),
{
    if cls.len() > 0 {
        lemma_max_abs(cls.drop_last());
        lemma_clause_max_abs(cls.last());
        assert forall|i: int, k: int| 0 <= i < cls.len() && 0 <= k < cls[i].len() implies abs_spec(#[trigger] cls[i][k]) <= max_abs(cls) by {
            if i < cls.len() - 1 {
                assert(cls.drop_last()[i] == cls[i]);
            } else {
                assert(cls.last() == cls[i]);
            }
        }
    }
}

pub open spec fn has_empty_clause(cls: Seq<Seq<isize>>) -> bool {
    exists|c: int| 0 <= c < cls.len() && (#[trigger] cls[c]).len() == 0
}

pub open spec fn has_zero_literal(cls: Seq<Seq<isize>>) -> bool {
    exists|c: int, k: int| 0 <= c < cls.len() && 0 <= k < cls[c].len() && #[trigger] cls[c][k] == 0
}

/// `p` in `s` is the problem that the clauses `cls` describe: variable `|x| - 1`
/// for literal `x`, positive when `x > 0`; every variable unset; every clause
/// active.
pub open spec fn reads_clauses(p: Problem, s: Trail, cls: Seq<Seq<isize>>) -> bool {
    &&& p.wf(s)
    &&& p.active_clauses_unsatisfied(s)
    &&& p.nvars() == max_abs(cls)
    &&& p.nclauses() == cls.len()
    &&& p.number_clauses_problem == cls.len()
    &&& forall|c: int| 0 <= c < cls.len() ==> {
        let x = #[trigger] p.clauses@[c];
        &&& x.literals@.len() == cls[c].len()
        &&& x.id == c
        &&& !x.is_learned
        &&& x.is_active_in(s)
    }
    &&& forall|c: int, k: int| 0 <= c < cls.len() && 0 <= k < cls[c].len() ==> {
        let l = #[trigger] p.lit(c, k);
        &&& l.variable.0 == abs_spec(cls[c][k]) - 1
        &&& l.positive == (cls[c][k] > 0)
    }
    &&& forall|v: int| 0 <= v < p.nvars() ==> #[trigger] p.value_of(v, s) is None
    &&& forall|v: int| 0 <= v < p.nvars() ==> {
        let x = #[trigger] p.variables@[v];
        &&& x.id == v
        &&& x.decision == -1
        &&& x.clauses_positive@ == occurrence_list(p.clauses@, v, true, p.nclauses())
        &&& x.clauses_negative@ == occurrence_list(p.clauses@, v, false, p.nclauses())
        &&& p.watchers@[v]@ == watch_list(p.clauses@, v, p.nclauses())
    }
}

/// Reads a problem from the lines of a DIMACS text. Fails, in this order of
/// precedence, when a token is not a number, when a clause is empty, and when a
/// literal is 0. New values of the store are appended.
pub fn problem_from_cnf(lines: &Vec<Vec<char>>, state: &mut Trail) -> (r: Result<Problem, CnfError>)
    ensures
        extends(*old(state), *final(state)),
        match parse_lines_spec(views(lines@)) {
            None => r == Err::<Problem, CnfError>(CnfError::InvalidNumber),
            Some(cls) => if has_empty_clause(cls) {
                r == Err::<Problem, CnfError>(CnfError::EmptyClause)
            } else if has_zero_literal(cls) {
                r == Err::<Problem, CnfError>(CnfError::ZeroVariable)
            } else {
                &&& r is Ok
                &&& reads_clauses(r->Ok_0, *final(state), cls)
                &&& watches_complete(r->Ok_0)
                &&& forall|v: int| 0 <= v < r->Ok_0.nvars()
                    ==> (#[trigger] r->Ok_0.variables@[v]).assignment_position.0 >= old(state).values().len()
            },
        },
{
    let clauses = match parse_clauses(lines) {
        Some(c) => c,
        None => return Err(CnfError::InvalidNumber),
    };
    let ghost cls = clause_views(clauses@);
    let mut number_var: usize = 0;
    let mut i: usize = 0;
    assert(cls.take(0) =~= Seq::<Seq<isize>>::empty());
    while i < clauses.len()
        invariant
            i <= clauses@.len(),
            cls == clause_views(clauses@),
            parse_lines_spec(views(lines@)) == Some(cls),
            number_var == max_abs(cls.take(i as int)),
            forall|c: int| 0 <= c < i ==> (#[trigger] cls[c]).len() > 0,
        decreases clauses@.len() - i,
    {
        assert(cls[i as int] == clauses@[i as int]@);
        if clauses[i].len() == 0 {
            assert(cls[i as int].len() == 0);
            return Err(CnfError::EmptyClause);
        }
        let mut m: usize = 0;
        let mut k: usize = 0;
        let ghost c = cls[i as int];
        assert(c.take(0) =~= Seq::<isize>::empty());
        while k < clauses[i].len()
            invariant
                k <= c.len(),
                i < clauses@.len(),
                c == clauses@[i as int]@,
                m == clause_max_abs(c.take(k as int)),
            decreases c.len() - k,
        {
            let a = unsigned_abs(clauses[i][k]);
            assert(c.take(k + 1).drop_last() =~= c.take(k as int));
            if m < a {
                m = a;
            }
            k += 1;
        }
        assert(c.take(k as int) =~= c);
        assert(cls.take(i + 1).drop_last() =~= cls.take(i as int));
        if number_var < m {
            number_var = m;
        }
        i += 1;
    }
    assert(cls.take(i as int) =~= cls);
    proof {
        lemma_max_abs(cls);
    }
    let mut problem = Problem::new(state, number_var, clauses.len());
    let ghost s1 = *state;
    let mut i: usize = 0;
    while i < clauses.len()
        invariant
            i <= clauses@.len(),
            cls == clause_views(clauses@),
            parse_lines_spec(views(lines@)) == Some(cls),
            number_var == max_abs(cls),
            forall|c: int| 0 <= c < cls.len() ==> (#[trigger] cls[c]).len() > 0,
            forall|c: int, k: int| 0 <= c < cls.len() && 0 <= k < cls[c].len() ==> abs_spec(#[trigger] cls[c][k]) <= max_abs(cls),
            forall|c: int, k: int| 0 <= c < i && 0 <= k < cls[c].len() ==> #[trigger] cls[c][k] != 0,
            problem.wf(*state),
            problem.active_clauses_unsatisfied(*state),
            watches_complete(problem),
            problem.nvars() == number_var,
            problem.nclauses() == i,
            problem.number_clauses_problem == clauses@.len(),
            extends(*old(state), *state),
            forall|c: int| 0 <= c < i ==> {
                let x = #[trigger] problem.clauses@[c];
                &&& x.literals@.len() == cls[c].len()
                &&& x.id == c
                &&& !x.is_learned
                &&& x.is_active_in(*state)
            },
            forall|c: int, k: int| 0 <= c < i && 0 <= k < cls[c].len() ==> {
                let l = #[trigger] problem.lit(c, k);
                &&& l.variable.0 == abs_spec(cls[c][k]) - 1
                &&& l.positive == (cls[c][k] > 0)
            },
            forall|v: int| 0 <= v < problem.nvars() ==> #[trigger] problem.value_of(v, *state) is None,
            forall|v: int| 0 <= v < problem.nvars()
                ==> (#[trigger] problem.variables@[v]).assignment_position.0 >= old(state).values().len(),
            forall|v: int| 0 <= v < problem.nvars() ==> {
                let x = #[trigger] problem.variables@[v];
                &&& x.id == v
                &&& x.decision == -1
                &&& x.clauses_positive@ == occurrence_list(problem.clauses@, v, true, i as int)
                &&& x.clauses_negative@ == occurrence_list(problem.clauses@, v, false, i as int)
                &&& problem.watchers@[v]@ == watch_list(problem.clauses@, v, i as int)
            },
        decreases clauses@.len() - i,
    {
        let ghost c = cls[i as int];
        assert(c == clauses@[i as int]@);
        let mut literals: Vec<Literal> = Vec::new();
        let mut k: usize = 0;
        while k < clauses[i].len()
            invariant
                k <= c.len(),
                i < clauses@.len(),
                cls == clause_views(clauses@),
                parse_lines_spec(views(lines@)) == Some(cls),
                forall|cc: int| 0 <= cc < cls.len() ==> (#[trigger] cls[cc]).len() > 0,
                extends(*old(state), *state),
                c == clauses@[i as int]@,
                c == cls[i as int],
                i < cls.len(),
                literals@.len() == k,
                number_var == max_abs(cls),
                problem.nvars() == number_var,
                forall|kk: int| 0 <= kk < c.len() ==> abs_spec(#[trigger] c[kk]) <= max_abs(cls),
                forall|kk: int| 0 <= kk < k ==> #[trigger] c[kk] != 0,
                forall|kk: int| 0 <= kk < k ==> {
                    let l = #[trigger] literals@[kk];
                    &&& l.variable.0 == abs_spec(c[kk]) - 1
                    &&& l.positive == (c[kk] > 0)
                    &&& l.variable.0 < problem.nvars()
                    &&& l.value == problem.variables@[l.variable.0 as int].value
                },
            decreases c.len() - k,
        {
            let lit = clauses[i][k];
            assert(cls[i as int][k as int] == lit);
            if lit == 0 {
                assert(has_zero_literal(cls));
                return Err(CnfError::ZeroVariable);
            }
            let variable = unsigned_abs(lit);
            let var = VariableIndex(variable - 1);
            let value_index = problem.variables[var.0].get_value_index();
            literals.push(Literal::from_variable(var, lit > 0, value_index));
            k += 1;
        }
        let ghost sb = *state;
        let ghost pb = problem;
        proof {
            assert forall|kk: int| 0 <= kk < literals@.len() implies !(#[trigger] literals@[kk]).is_true_in(sb) by {
                let l = literals@[kk];
                assert(pb.value_of(l.variable.0 as int, sb) is None);
            }
        }
        problem.add_clause(literals, state, false);
        proof {
            assert forall|j: int| 0 <= j < sb.values().len() implies #[trigger] state.values()[j] == sb.values()[j] by {}
            assert forall|v: int| 0 <= v < problem.nvars() implies #[trigger] problem.value_of(v, *state) is None by {
                assert(pb.variables@[v].wf_in(sb));
                assert(problem.variables@[v].value == pb.variables@[v].value);
                assert(pb.value_of(v, sb) is None);
            }
            assert forall|cc: int| 0 <= cc < i + 1 implies {
                let x = #[trigger] problem.clauses@[cc];
                &&& x.literals@.len() == cls[cc].len()
                &&& x.id == cc
                &&& !x.is_learned
                &&& x.is_active_in(*state)
            } by {
                if cc < i {
                    assert(problem.clauses@[cc] == pb.clauses@[cc]);
                    assert(pb.clauses@[cc].wf_in(sb));
                }
            }
            assert forall|cc: int, k: int| 0 <= cc < i + 1 && 0 <= k < cls[cc].len() implies {
                let l = #[trigger] problem.lit(cc, k);
                &&& l.variable.0 == abs_spec(cls[cc][k]) - 1
                &&& l.positive == (cls[cc][k] > 0)
            } by {
                if cc < i {
                    assert(problem.clauses@[cc] == pb.clauses@[cc]);
                    assert(problem.lit(cc, k) == pb.lit(cc, k));
                }
            }
            assert forall|v: int| 0 <= v < problem.nvars() implies {
                let x = #[trigger] problem.variables@[v];
                &&& x.id == v
                &&& x.decision == -1
                &&& x.clauses_positive@ == occurrence_list(problem.clauses@, v, true, i + 1)
                &&& x.clauses_negative@ == occurrence_list(problem.clauses@, v, false, i + 1)
                &&& problem.watchers@[v]@ == watch_list(problem.clauses@, v, i + 1)
            } by {
                lemma_lists_prefix(pb.clauses@, problem.clauses@, v, i as int);
                assert(pb.variables@[v].id == v);
                let lits = problem.clauses@[i as int].literals@;
                assert(lits.take(if lits.len() < 2 { lits.len() as int } else { 2 }) == lits.take(watched_count(lits)));
            }
            assert forall|cc: int, k: int| 0 <= cc < i + 1 && 0 <= k < cls[cc].len() implies #[trigger] cls[cc][k] != 0 by {
                if cc == i {
                    assert(c[k] == cls[cc][k]);
                }
            }
        }
        i += 1;
    }
    proof {
        assert(!has_empty_clause(cls));
        assert(!has_zero_literal(cls));
    }
    Ok(problem)
}

} // verus!
