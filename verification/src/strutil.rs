//! String helpers shared by the tokenizer, the parser and the engine:
//! lexicographic comparison over character sequences, ASCII
//! case-insensitive keyword matching, trimming, splitting and joining.

use vstd::prelude::*;

verus! {

/// The deep view of a vector has the same length as the vector.
pub broadcast proof fn lemma_dv_len<T: DeepView>(v: Vec<T>)
    ensures
        #![trigger v.deep_view()]
        v.deep_view().len() == v@.len(),
{
}

/// The deep view of a vector holds the deep view of each element.
pub broadcast proof fn lemma_dv_index<T: DeepView>(v: Vec<T>, i: int)
    requires
        0 <= i < v@.len(),
    ensures
        #[trigger] v.deep_view()[i] == v@[i].deep_view(),
{
}

/// Outcome of a three-way string comparison.
#[derive(PartialEq, Eq, Structural, Clone, Copy, Debug)]
pub enum CmpRes {
    Less,
    Equal,
    Greater,
}

/// Strict lexicographic order on character sequences, by Unicode scalar
/// value. This matches the order Rust gives to `str` values.
pub open spec fn lex_lt(a: Seq<char>, b: Seq<char>) -> bool
    decreases a.len(),
{
    if b.len() == 0 {
        false
    } else if a.len() == 0 {
        true
    } else if a[0] != b[0] {
        (a[0] as u32) < (b[0] as u32)
    } else {
        lex_lt(a.drop_first(), b.drop_first())
    }
}

/// Non-strict lexicographic order.
pub open spec fn lex_le(a: Seq<char>, b: Seq<char>) -> bool {
    lex_lt(a, b) || a == b
}

/// Distinct characters have distinct Unicode scalar values.
proof fn lemma_char_cast_distinct(a: char, b: char)
    requires
        a != b,
    ensures
        a as u32 != b as u32,
{
}

/// Any two character sequences are comparable: one comes strictly
/// first, or they are equal.
pub proof fn lemma_lex_total(a: Seq<char>, b: Seq<char>)
    ensures
        lex_lt(a, b) || lex_lt(b, a) || a == b,
    decreases a.len(),
{
    if a.len() == 0 && b.len() == 0 {
        assert(a =~= b);
    } else if a.len() > 0 && b.len() > 0 && a[0] == b[0] {
        lemma_lex_total(a.drop_first(), b.drop_first());
        if a.drop_first() == b.drop_first() {
            assert(a.drop_first().len() == b.drop_first().len());
            assert(a.len() == b.len());
            assert forall|k: int| 0 <= k < a.len() implies a[k] == b[k] by {
                if k > 0 {
                    assert(a.drop_first()[k - 1] == b.drop_first()[k - 1]);
                    assert(a.drop_first()[k - 1] == a[1 + (k - 1)]);
                    assert(b.drop_first()[k - 1] == b[1 + (k - 1)]);
                    assert(1 + (k - 1) == k);
                }
            }
            assert(a =~= b);
        } else {
            assert(lex_lt(a, b) == lex_lt(a.drop_first(), b.drop_first()));
            assert(lex_lt(b, a) == lex_lt(b.drop_first(), a.drop_first()));
        }
    } else {
        if a.len() == 0 {
            assert(b.len() > 0);
            assert(lex_lt(a, b));
        } else if b.len() == 0 {
            assert(lex_lt(b, a));
        } else {
            assert(a[0] != b[0]);
            lemma_char_cast_distinct(a[0], b[0]);
            assert((a[0] as u32) != (b[0] as u32));
            if (a[0] as u32) < (b[0] as u32) {
                assert(lex_lt(a, b));
            } else {
                assert(lex_lt(b, a));
            }
        }
    }
}

/// When two sequences agree on their first `i` characters, their
/// lexicographic order is decided by what follows.
proof fn lemma_lex_skip(a: Seq<char>, b: Seq<char>, i: int)
    requires
        0 <= i <= a.len(),
        i <= b.len(),
        a.subrange(0, i) == b.subrange(0, i),
    ensures
        lex_lt(a, b) == lex_lt(a.skip(i), b.skip(i)),
    decreases i,
{
    if i == 0 {
        assert(a.skip(0) =~= a);
        assert(b.skip(0) =~= b);
    } else {
        assert(a.subrange(0, i)[0] == a[0]);
        assert(b.subrange(0, i)[0] == b[0]);
        assert(a.drop_first().subrange(0, i - 1) =~= b.drop_first().subrange(0, i - 1)) by {
            assert forall|k: int| 0 <= k < i - 1 implies #[trigger] a.drop_first().subrange(
                0,
                i - 1,
            )[k] == b.drop_first().subrange(0, i - 1)[k] by {
                assert(a.drop_first().subrange(0, i - 1)[k] == a.drop_first()[k]);
                assert(a.drop_first()[k] == a[k + 1]);
                assert(b.drop_first().subrange(0, i - 1)[k] == b.drop_first()[k]);
                assert(b.drop_first()[k] == b[k + 1]);
                assert(a.subrange(0, i)[k + 1] == a[k + 1]);
                assert(b.subrange(0, i)[k + 1] == b[k + 1]);
                assert(a.subrange(0, i)[k + 1] == b.subrange(0, i)[k + 1]);
            }
        }
        lemma_lex_skip(a.drop_first(), b.drop_first(), i - 1);
        assert(a.drop_first().skip(i - 1) =~= a.skip(i));
        assert(b.drop_first().skip(i - 1) =~= b.skip(i));
    }
}

/// Three-way comparison of two strings in lexicographic character order.
pub fn str_compare(a: &str, b: &str) -> (r: CmpRes)
    ensures
        (r == CmpRes::Less) == lex_lt(a@, b@),
        (r == CmpRes::Equal) == (a@ == b@),
        (r == CmpRes::Greater) == lex_lt(b@, a@),
{
    let alen: usize = a.unicode_len();
    let blen: usize = b.unicode_len();
    let mut i: usize = 0;
    loop
        invariant
            i <= alen,
            i <= blen,
            alen == a@.len(),
            blen == b@.len(),
            a@.subrange(0, i as int) == b@.subrange(0, i as int),
        decreases alen - i,
    {
        proof {
            lemma_lex_skip(a@, b@, i as int);
            lemma_lex_skip(b@, a@, i as int);
        }
        let ghost sa = a@.skip(i as int);
        let ghost sb = b@.skip(i as int);
        if i >= alen && i >= blen {
            proof {
                assert(a@ =~= a@.subrange(0, i as int));
                assert(b@ =~= b@.subrange(0, i as int));
            }
            return CmpRes::Equal;
        }
        if i >= alen {
            proof {
                assert(sa.len() == 0 && sb.len() > 0);
                assert(lex_lt(sa, sb));
                assert(!lex_lt(sb, sa));
                assert(a@.len() != b@.len());
            }
            return CmpRes::Less;
        }
        if i >= blen {
            proof {
                assert(sb.len() == 0 && sa.len() > 0);
                assert(lex_lt(sb, sa));
                assert(!lex_lt(sa, sb));
                assert(a@.len() != b@.len());
            }
            return CmpRes::Greater;
        }
        let ca = a.get_char(i);
        let cb = b.get_char(i);
        proof {
            assert(sa[0] == ca);
            assert(sb[0] == cb);
        }
        if (ca as u32) < (cb as u32) {
            proof {
                assert(ca != cb);
                assert(lex_lt(sa, sb));
                assert(!lex_lt(sb, sa));
                assert(a@ != b@) by {
                    if a@ == b@ {
                        assert(sa == sb);
                    }
                }
            }
            return CmpRes::Less;
        }
        if (cb as u32) < (ca as u32) {
            proof {
                assert(ca != cb);
                assert(lex_lt(sb, sa));
                assert(!lex_lt(sa, sb));
                assert(a@ != b@) by {
                    if a@ == b@ {
                        assert(sa == sb);
                    }
                }
            }
            return CmpRes::Greater;
        }
        proof {
            assert(ca == cb);
            assert(a@.subrange(0, i as int + 1) =~= a@.subrange(0, i as int).push(ca));
            assert(b@.subrange(0, i as int + 1) =~= b@.subrange(0, i as int).push(cb));
        }
        i = i + 1;
    }
}

/// Equality of two strings, decided character by character.
pub fn str_eq(a: &str, b: &str) -> (r: bool)
    ensures
        r == (a@ == b@),
{
    matches!(str_compare(a, b), CmpRes::Equal)
}

/// Relies on `String::from_iter` (through `Iterator::collect`): the returned
/// string holds exactly the given characters, in order.
#[verifier::external_body]
pub fn chars_to_string(v: &Vec<char>) -> (s: String)
    ensures
        s@ == v@,
{
    v.iter().collect()
}

/// The Unicode scalar value of a character, with ASCII capital letters
/// folded to their small counterparts.
pub open spec fn lower_u32(c: char) -> u32 {
    if 65 <= c as u32 <= 90 {
        (c as u32 + 32) as u32
    } else {
        c as u32
    }
}

/// ASCII case-insensitive equality of two character sequences.
pub open spec fn eq_nocase(a: Seq<char>, b: Seq<char>) -> bool {
    a.len() == b.len() && (forall|i: int| 0 <= i < a.len() ==> lower_u32(a[i]) == lower_u32(b[i]))
}

fn lower_of_char(c: char) -> (r: u32)
    ensures
        r == lower_u32(c),
{
    let u = c as u32;
    if 65 <= u && u <= 90 {
        u + 32
    } else {
        u
    }
}

/// ASCII case-insensitive equality of two strings; keywords and operator
/// words are matched with this.
pub fn ascii_eq_nocase(a: &str, b: &str) -> (r: bool)
    ensures
        r == eq_nocase(a@, b@),
{
    let alen: usize = a.unicode_len();
    let blen: usize = b.unicode_len();
    if alen != blen {
        return false;
    }
    let mut i: usize = 0;
    while i < alen
        invariant
            i <= alen,
            alen == a@.len(),
            alen == b@.len(),
            forall|k: int| 0 <= k < i ==> lower_u32(a@[k]) == lower_u32(b@[k]),
        decreases alen - i,
    {
        if lower_of_char(a.get_char(i)) != lower_of_char(b.get_char(i)) {
            return false;
        }
        i = i + 1;
    }
    true
}

/// Whitespace for trimming purposes: blank, tab, carriage return, newline.
pub open spec fn is_ws(c: char) -> bool {
    c == ' ' || c == '\t' || c == '\n' || c == '\r'
}

fn is_ws_char(c: char) -> (r: bool)
    ensures
        r == is_ws(c),
{
    c == ' ' || c == '\t' || c == '\n' || c == '\r'
}

/// A sequence with its leading whitespace removed.
pub open spec fn trim_start_spec(s: Seq<char>) -> Seq<char>
    decreases s.len(),
{
    if s.len() > 0 && is_ws(s[0]) {
        trim_start_spec(s.drop_first())
    } else {
        s
    }
}

/// A sequence with its trailing whitespace removed.
pub open spec fn trim_end_spec(s: Seq<char>) -> Seq<char>
    decreases s.len(),
{
    if s.len() > 0 && is_ws(s.last()) {
        trim_end_spec(s.drop_last())
    } else {
        s
    }
}

/// A sequence with whitespace removed from both ends.
pub open spec fn trim_spec(s: Seq<char>) -> Seq<char> {
    trim_end_spec(trim_start_spec(s))
}

/// The given string with whitespace removed from both ends.
pub fn trim_str(s: &str) -> (r: String)
    ensures
        r@ == trim_spec(s@),
{
    let len: usize = s.unicode_len();
    let mut start: usize = 0;
    proof {
        assert(s@.skip(0) =~= s@);
    }
    while start < len && is_ws_char(s.get_char(start))
        invariant
            start <= len,
            len == s@.len(),
            trim_start_spec(s@) == trim_start_spec(s@.skip(start as int)),
        decreases len - start,
    {
        proof {
            assert(s@.skip(start as int).drop_first() =~= s@.skip(start as int + 1));
        }
        start = start + 1;
    }
    proof {
        assert(trim_start_spec(s@.skip(start as int)) == s@.skip(start as int));
    }
    let mut end: usize = len;
    while end > start && is_ws_char(s.get_char(end - 1))
        invariant
            start <= end <= len,
            len == s@.len(),
            trim_start_spec(s@) == s@.skip(start as int),
            trim_end_spec(s@.skip(start as int)) == trim_end_spec(
                s@.subrange(start as int, end as int),
            ),
        decreases end,
    {
        proof {
            let seg = s@.subrange(start as int, end as int);
            assert(seg.last() == s@[end - 1]);
            assert(seg.drop_last() =~= s@.subrange(start as int, end as int - 1));
        }
        end = end - 1;
    }
    proof {
        let seg = s@.subrange(start as int, end as int);
        if end == start {
            assert(seg.len() == 0);
        } else {
            assert(seg.last() == s@[end - 1]);
        }
        assert(trim_end_spec(seg) == seg);
        assert(s@.skip(start as int) =~= s@.subrange(start as int, len as int));
    }
    String::from_str(s.substring_char(start, end))
}

/// A token with one pair of surrounding double quotes removed, if present.
pub open spec fn strip_dq_spec(s: Seq<char>) -> Seq<char> {
    if s.len() >= 2 && s[0] == '"' && s.last() == '"' {
        s.subrange(1, s.len() - 1)
    } else {
        s
    }
}

/// The given token with one pair of surrounding double quotes removed.
pub fn strip_dquotes(s: &str) -> (r: String)
    ensures
        r@ == strip_dq_spec(s@),
{
    let len: usize = s.unicode_len();
    if len >= 2 && s.get_char(0) == '"' && s.get_char(len - 1) == '"' {
        String::from_str(s.substring_char(1, len - 1))
    } else {
        String::from_str(s)
    }
}

/// The pieces of a sequence between occurrences of a separator character:
/// splitting the empty sequence gives one empty piece, and every separator
/// closes the piece before it.
pub open spec fn split_char_spec(s: Seq<char>, sep: char) -> Seq<Seq<char>>
    decreases s.len(),
{
    if s.len() == 0 {
        seq![Seq::<char>::empty()]
    } else {
        let prev = split_char_spec(s.drop_last(), sep);
        if s.last() == sep {
            prev.push(Seq::<char>::empty())
        } else {
            prev.update(prev.len() - 1, prev.last().push(s.last()))
        }
    }
}

pub proof fn lemma_split_char_nonempty(s: Seq<char>, sep: char)
    ensures
        split_char_spec(s, sep).len() >= 1,
    decreases s.len(),
{
    if s.len() > 0 {
        lemma_split_char_nonempty(s.drop_last(), sep);
    }
}

/// The comma-separated pieces of a sequence.
pub open spec fn split_commas_spec(s: Seq<char>) -> Seq<Seq<char>> {
    split_char_spec(s, ',')
}

/// The pieces of a string between occurrences of a separator character.
pub fn split_char(s: &str, sep: char) -> (r: Vec<String>)
    ensures
        r.deep_view() == split_char_spec(s@, sep),
{
    let len: usize = s.unicode_len();
    let mut out: Vec<String> = Vec::new();
    let mut chunk: Vec<char> = Vec::new();
    let mut i: usize = 0;
    while i < len
        invariant
            i <= len,
            len == s@.len(),
            split_char_spec(s@.subrange(0, i as int), sep) == out.deep_view().push(chunk@),
        decreases len - i,
    {
        let c = s.get_char(i);
        proof {
            assert(s@.subrange(0, i as int + 1).drop_last() =~= s@.subrange(0, i as int));
            assert(s@.subrange(0, i as int + 1).last() == c);
            lemma_split_char_nonempty(s@.subrange(0, i as int), sep);
        }
        if c == sep {
            let flushed = chars_to_string(&chunk);
            out.push(flushed);
            chunk = Vec::new();
            proof {
                assert(split_char_spec(s@.subrange(0, i as int + 1), sep)
                    =~= out.deep_view().push(chunk@));
            }
        } else {
            chunk.push(c);
            proof {
                let prev = out.deep_view().push(chunk@.drop_last());
                assert(chunk@.drop_last().push(c) =~= chunk@);
                assert(prev.update(prev.len() - 1, prev.last().push(c)) =~= out.deep_view().push(
                    chunk@,
                ));
            }
        }
        i = i + 1;
    }
    let tail = chars_to_string(&chunk);
    out.push(tail);
    proof {
        assert(s@.subrange(0, len as int) =~= s@);
    }
    out
}

/// The pieces of a string between its commas.
pub fn split_commas(s: &str) -> (r: Vec<String>)
    ensures
        r.deep_view() == split_commas_spec(s@),
{
    split_char(s, ',')
}

/// Whether a character is a decimal digit.
pub open spec fn is_digit(c: char) -> bool {
    48 <= c as u32 <= 57
}

/// The numeric value of a digit sequence read in base ten.
pub open spec fn digits_val(s: Seq<char>) -> nat
    decreases s.len(),
{
    if s.len() == 0 {
        0
    } else {
        digits_val(s.drop_last()) * 10 + (s.last() as u32 - 48) as nat
    }
}

/// Whether a sequence is one or more decimal digits.
pub open spec fn is_number(s: Seq<char>) -> bool {
    s.len() > 0 && (forall|i: int| 0 <= i < s.len() ==> is_digit(s[i]))
}

proof fn lemma_digits_val_prefix_le(s: Seq<char>, i: int)
    requires
        0 <= i <= s.len(),
    ensures
        digits_val(s.subrange(0, i)) <= digits_val(s),
    decreases s.len() - i,
{
    if i < s.len() {
        lemma_digits_val_prefix_le(s, i + 1);
        let t = s.subrange(0, i + 1);
        assert(t.drop_last() =~= s.subrange(0, i));
        assert(digits_val(t) == digits_val(s.subrange(0, i)) * 10 + (t.last() as u32 - 48) as nat);
        assert(digits_val(s.subrange(0, i)) * 10 >= digits_val(s.subrange(0, i)));
    } else {
        assert(s.subrange(0, i) =~= s);
    }
}

/// Reads an unsigned number written in decimal digits; anything else,
/// and any value above `usize::MAX`, gives nothing.
pub fn parse_usize(s: &str) -> (r: Option<usize>)
    ensures
        r is Some <==> is_number(s@) && digits_val(s@) <= usize::MAX,
        r is Some ==> r.unwrap() == digits_val(s@),
{
    let len: usize = s.unicode_len();
    if len == 0 {
        return None;
    }
    let mut val: usize = 0;
    let mut i: usize = 0;
    while i < len
        invariant
            i <= len,
            len == s@.len(),
            len > 0,
            forall|k: int| 0 <= k < i ==> is_digit(s@[k]),
            val == digits_val(s@.subrange(0, i as int)),
        decreases len - i,
    {
        let c = s.get_char(i);
        let u = c as u32;
        if u < 48 || u > 57 {
            return None;
        }
        let d: usize = (u - 48) as usize;
        proof {
            let t = s@.subrange(0, i as int + 1);
            assert(t.drop_last() =~= s@.subrange(0, i as int));
            assert(t.last() == c);
        }
        if val > (usize::MAX - d) / 10 {
            proof {
                let m = (usize::MAX - d) as int;
                assert(m / 10 * 10 + m % 10 == m) by {
                    vstd::arithmetic::div_mod::lemma_fundamental_div_mod(m, 10);
                }
                assert(val * 10 + d > usize::MAX);
                assert(digits_val(s@.subrange(0, i as int + 1)) > usize::MAX);
                lemma_digits_val_prefix_le(s@, i as int + 1);
            }
            return None;
        }
        val = val * 10 + d;
        i = i + 1;
    }
    proof {
        assert(s@.subrange(0, len as int) =~= s@);
    }
    Some(val)
}

/// The pieces joined with commas between them: the inverse direction of
/// splitting on commas, for pieces that hold no comma.
pub open spec fn join_commas_spec(cells: Seq<Seq<char>>) -> Seq<char>
    decreases cells.len(),
{
    if cells.len() == 0 {
        Seq::empty()
    } else if cells.len() == 1 {
        cells[0]
    } else {
        join_commas_spec(cells.drop_last()) + seq![','] + cells.last()
    }
}

/// The given cells joined into one line with comma separators.
pub fn join_commas(cells: &Vec<String>) -> (r: String)
    ensures
        r@ == join_commas_spec(cells.deep_view()),
{
    let mut r = String::new();
    let n = cells.len();
    let mut i: usize = 0;
    while i < n
        invariant
            i <= n,
            n == cells@.len(),
            r@ == join_commas_spec(cells.deep_view().subrange(0, i as int)),
        decreases n - i,
    {
        if i > 0 {
            r.append(",");
        }
        r.append(cells[i].as_str());
        proof {
            let dv = cells.deep_view();
            let t = dv.subrange(0, i as int + 1);
            assert(t.drop_last() =~= dv.subrange(0, i as int));
            assert(t.last() == dv[i as int]);
            if i == 0 {
                reveal_strlit(",");
                assert(join_commas_spec(dv.subrange(0, 0)) =~= Seq::<char>::empty());
                assert(r@ =~= t[0]);
            } else {
                reveal_strlit(",");
                assert(r@ =~= join_commas_spec(dv.subrange(0, i as int)) + seq![','] + dv[
                    i as int
                ]);
            }
        }
        i = i + 1;
    }
    proof {
        assert(cells.deep_view().subrange(0, n as int) =~= cells.deep_view());
    }
    r
}

} // verus!
