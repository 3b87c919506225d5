//! Text: numbers in decimal, pieces between separators, replaced characters.
use vstd::prelude::*;

verus! {

/// The texts of a list.
pub open spec fn texts(list: Seq<String>) -> Seq<Seq<char>> {
    Seq::new(list.len(), |i: int| list[i]@)
}

/// The character of a digit.
pub open spec fn digit_char(d: nat) -> char {
    (48 + d) as char
}

/// A number in decimal.
pub open spec fn decimal_spec(n: nat) -> Seq<char>
    decreases n,
{
    if n < 10 {
        seq![digit_char(n)]
    } else {
        decimal_spec(n / 10).push(digit_char(n % 10))
    }
}

/// A digit as text.
fn digit(d: u64) -> (r: &'static str)
    requires
        d < 10,
    ensures
        r@ == seq![digit_char(d as nat)],
{
    proof {
        reveal_strlit("0");
        reveal_strlit("1");
        reveal_strlit("2");
        reveal_strlit("3");
        reveal_strlit("4");
        reveal_strlit("5");
        reveal_strlit("6");
        reveal_strlit("7");
        reveal_strlit("8");
        reveal_strlit("9");
    }
    let text = if d == 0 {
        "0"
    } else if d == 1 {
        "1"
    } else if d == 2 {
        "2"
    } else if d == 3 {
        "3"
    } else if d == 4 {
        "4"
    } else if d == 5 {
        "5"
    } else if d == 6 {
        "6"
    } else if d == 7 {
        "7"
    } else if d == 8 {
        "8"
    } else {
        "9"
    };
    assert(text@ =~= seq![digit_char(d as nat)]);
    text
}

/// A number in decimal.
pub fn decimal(n: u64) -> (r: String)
    ensures
        r@ == decimal_spec(n as nat),
    decreases n,
{
    if n < 10 {
        digit(n).to_owned()
    } else {
        let mut text = decimal(n / 10);
        text.append(digit(n % 10));
        assert(text@ =~= decimal_spec(n as nat));
        text
    }
}

/// The number that the decimal digits of a text write.
pub open spec fn number(text: Seq<char>) -> int
    decreases text.len(),
{
    if text.len() == 0 {
        0
    } else {
        10 * number(text.drop_last()) + (text.last() as int - 48)
    }
}

/// The decimal text of a number writes that number: no two numbers have one text.
pub proof fn law_decimal_writes_number(n: nat)
    ensures
        number(decimal_spec(n)) == n,
    decreases n,
{
    let text = decimal_spec(n);
    if n < 10 {
        assert(text.drop_last() =~= Seq::<char>::empty());
        assert(number(Seq::<char>::empty()) == 0);
    } else {
        law_decimal_writes_number(n / 10);
        assert(text.drop_last() =~= decimal_spec(n / 10));
    }
}

/// The characters of a text.
pub fn chars_of(text: &str) -> (r: Vec<char>)
    ensures
        r@ == text@,
{
    let mut out: Vec<char> = Vec::new();
    for c in it: text.chars()
        invariant
            it.seq() == text@,
            out@ == text@.take(it.index() as int),
    {
        out.push(c);
        assert(out@ =~= text@.take(it.index() + 1));
    }
    assert(out@ =~= text@);
    out
}

/// The place of the first `c`, the length where there is none.
pub open spec fn first(text: Seq<char>, c: char) -> int
    decreases text.len(),
{
    if text.len() == 0 || text[0] == c {
        0
    } else {
        1 + first(text.skip(1), c)
    }
}

/// The parts of a text between the separators.
pub open spec fn pieces(text: Seq<char>, separator: char) -> Seq<Seq<char>>
    decreases text.len(),
    via pieces_decreases
{
    let i: int = first(text, separator);
    if i >= text.len() {
        seq![text]
    } else {
        seq![text.take(i)] + pieces(text.skip(i + 1), separator)
    }
}

#[via_fn]
proof fn pieces_decreases(text: Seq<char>, separator: char) {
    lemma_first(text, separator);
}

/// What [`first`] finds.
pub proof fn lemma_first(text: Seq<char>, c: char)
    ensures
        0 <= first(text, c) <= text.len(),
        first(text, c) < text.len() ==> text[first(text, c)] == c,
        forall|i: int| 0 <= i < first(text, c) ==> text[i] != c,
    decreases text.len(),
{
    if text.len() > 0 && text[0] != c {
        let rest = text.skip(1);
        lemma_first(rest, c);
        assert forall|i: int| 0 <= i < first(text, c) implies text[i] != c by {
            if i > 0 {
                assert(rest[i - 1] != c);
            }
        }
        if first(rest, c) < rest.len() {
            assert(rest[first(rest, c)] == c);
        }
    }
}

/// [`first`] is the place that its properties describe.
proof fn lemma_first_is(text: Seq<char>, c: char, i: int)
    requires
        0 <= i <= text.len(),
        i < text.len() ==> text[i] == c,
        forall|j: int| 0 <= j < i ==> text[j] != c,
    ensures
        first(text, c) == i,
{
    lemma_first(text, c);
    if first(text, c) < i {
        assert(text[first(text, c)] != c);
    }
}

/// The parts of a text between the separators.
pub fn split(text: &str, separator: char) -> (r: Vec<String>)
    ensures
        texts(r@) == pieces(text@, separator),
{
    let chars = chars_of(text);
    let n: usize = chars.len();
    let ghost all = text@;
    let mut out: Vec<String> = Vec::new();
    let mut start: usize = 0;
    let mut i: usize = 0;
    assert(all.skip(0) =~= all);
    assert(texts(out@) + pieces(all, separator) =~= pieces(all, separator));
    while i < n
        invariant
            n == all.len(),
            all == text@,
            chars@ == all,
            start <= i <= n,
            forall|j: int| start <= j < i ==> all[j] != separator,
            texts(out@) + pieces(all.skip(start as int), separator) == pieces(all, separator),
        decreases n - i,
    {
        if chars[i] == separator {
            let piece = text.substring_char(start, i).to_owned();
            proof {
                let rest = all.skip(start as int);
                lemma_first_is(rest, separator, i - start);
                assert(rest.take(i - start) =~= all.subrange(start as int, i as int));
                assert(rest.skip(i - start + 1) =~= all.skip(i + 1));
                let more = pieces(all.skip(i + 1), separator);
                assert(pieces(rest, separator) == seq![piece@] + more);
                assert(texts(out@.push(piece)) =~= texts(out@).push(piece@));
                assert(texts(out@).push(piece@) + more =~= texts(out@) + (seq![piece@] + more));
            }
            out.push(piece);
            start = i + 1;
        }
        i = i + 1;
    }
    let piece = text.substring_char(start, n).to_owned();
    proof {
        let rest = all.skip(start as int);
        lemma_first_is(rest, separator, rest.len() as int);
        assert(rest =~= all.subrange(start as int, n as int));
        assert(pieces(rest, separator) == seq![rest]);
        assert(texts(out@.push(piece)) =~= texts(out@) + seq![piece@]);
    }
    out.push(piece);
    out
}

/// A text joined from its pieces, with the separator between them.
pub open spec fn joined(parts: Seq<Seq<char>>, separator: char) -> Seq<char>
    decreases parts.len(),
{
    if parts.len() <= 1 {
        if parts.len() == 0 {
            Seq::empty()
        } else {
            parts[0]
        }
    } else {
        parts[0].push(separator) + joined(parts.skip(1), separator)
    }
}

/// Splitting loses nothing: the pieces joined are the text, and none of them holds the separator.
pub proof fn law_pieces_join(text: Seq<char>, separator: char)
    ensures
        pieces(text, separator).len() >= 1,
        joined(pieces(text, separator), separator) == text,
        forall|i: int, j: int|
            0 <= i < pieces(text, separator).len() && 0 <= j < pieces(text, separator)[i].len()
                ==> pieces(text, separator)[i][j] != separator,
    decreases text.len(),
{
    lemma_first(text, separator);
    let i: int = first(text, separator);
    let all = pieces(text, separator);
    if i < text.len() {
        let rest = text.skip(i + 1);
        law_pieces_join(rest, separator);
        let more = pieces(rest, separator);
        assert(all == seq![text.take(i)] + more);
        assert(all.skip(1) =~= more);
        assert(joined(all, separator) =~= text);
        assert forall|p: int, q: int| 0 <= p < all.len() && 0 <= q < all[p].len() implies all[p][q] != separator by {
            if p > 0 {
                assert(all[p] == more[p - 1]);
            } else {
                assert(all[0] == text.take(i));
            }
        }
    }
}

/// A text with every character replaced by what `f` gives for it.
pub open spec fn mapped(text: Seq<char>, f: spec_fn(char) -> Seq<char>) -> Seq<char>
    decreases text.len(),
{
    if text.len() == 0 {
        Seq::empty()
    } else {
        mapped(text.drop_last(), f) + f(text.last())
    }
}

/// What a character becomes in the text of a drawing.
pub open spec fn escaped(c: char) -> Seq<char> {
    if c == '&' {
        "&amp;"@
    } else if c == '<' {
        "&lt;"@
    } else if c == '>' {
        "&gt;"@
    } else if c == '"' {
        "&quot;"@
    } else {
        seq![c]
    }
}

/// A text with the characters that markup reserves written out.
pub fn xml_escape(input: &str) -> (r: String)
    ensures
        r@ == mapped(input@, |c: char| escaped(c)),
{
    let chars = chars_of(input);
    let n: usize = chars.len();
    let ghost f = |c: char| escaped(c);
    let mut out = String::new();
    let mut i: usize = 0;
    assert(mapped(input@.take(0), f) =~= Seq::<char>::empty());
    while i < n
        invariant
            n == input@.len(),
            chars@ == input@,
            f == (|c: char| escaped(c)),
            i <= n,
            out@ == mapped(input@.take(i as int), f),
        decreases n - i,
    {
        let c: char = chars[i];
        if c == '&' {
            out.append("&amp;");
        } else if c == '<' {
            out.append("&lt;");
        } else if c == '>' {
            out.append("&gt;");
        } else if c == '"' {
            out.append("&quot;");
        } else {
            let same = input.substring_char(i, i + 1);
            assert(same@ =~= seq![c]);
            out.append(same);
        }
        proof {
            let upto = input@.take(i + 1);
            assert(upto.drop_last() =~= input@.take(i as int));
            assert(upto.last() == c);
        }
        i = i + 1;
    }
    assert(input@.take(n as int) =~= input@);
    out
}

/// The number of bytes of a text.
pub open spec fn bytes(text: String) -> nat {
    vstd::utf8::encode_utf8(text@).len()
}

/// The width of column `c` of a table: that of its widest cell in the first `n` rows, or of its
/// header.
pub open spec fn width(headers: Seq<String>, rows: Seq<Vec<String>>, c: int, n: nat) -> nat
    decreases n,
{
    if n == 0 {
        bytes(headers[c])
    } else {
        let above = width(headers, rows, c, (n - 1) as nat);
        if c < rows[n - 1]@.len() && bytes(rows[n - 1]@[c]) > above {
            bytes(rows[n - 1]@[c])
        } else {
            above
        }
    }
}

/// The widths of the columns of a table.
pub fn column_widths(headers: &Vec<String>, rows: &Vec<Vec<String>>) -> (r: Vec<usize>)
    requires
        forall|i: int| 0 <= i < rows@.len() ==> (#[trigger] rows@[i])@.len() <= headers@.len(),
        forall|i: int| 0 <= i < headers@.len() ==> bytes(#[trigger] headers@[i]) <= usize::MAX,
        forall|i: int, c: int|
            0 <= i < rows@.len() && 0 <= c < rows@[i]@.len() ==> bytes(#[trigger] rows@[i]@[c]) <= usize::MAX,
    ensures
        r@.len() == headers@.len(),
        forall|c: int| 0 <= c < r@.len() ==> #[trigger] r@[c] == width(headers@, rows@, c, rows@.len()),
{
    let mut widths: Vec<usize> = Vec::new();
    let mut c: usize = 0;
    while c < headers.len()
        invariant
            c <= headers@.len(),
            widths@.len() == c,
            forall|i: int| 0 <= i < rows@.len() ==> (#[trigger] rows@[i])@.len() <= headers@.len(),
            forall|i: int| 0 <= i < headers@.len() ==> bytes(#[trigger] headers@[i]) <= usize::MAX,
            forall|i: int, c: int|
                0 <= i < rows@.len() && 0 <= c < rows@[i]@.len() ==> bytes(#[trigger] rows@[i]@[c])
                    <= usize::MAX,
            forall|d: int| 0 <= d < c ==> #[trigger] widths@[d] == width(headers@, rows@, d, rows@.len()),
        decreases headers@.len() - c,
    {
        assert(bytes(headers@[c as int]) <= usize::MAX);
        let mut widest: usize = headers[c].as_str().len();
        let mut i: usize = 0;
        while i < rows.len()
            invariant
                c < headers@.len(),
                i <= rows@.len(),
                forall|i: int, c: int|
                    0 <= i < rows@.len() && 0 <= c < rows@[i]@.len() ==> bytes(#[trigger] rows@[i]@[c])
                        <= usize::MAX,
                widest == width(headers@, rows@, c as int, i as nat),
            decreases rows@.len() - i,
        {
            if c < rows[i].len() {
                assert(bytes(rows@[i as int]@[c as int]) <= usize::MAX);
                let cell: usize = rows[i][c].as_str().len();
                if cell > widest {
                    widest = cell;
                }
            }
            i = i + 1;
        }
        widths.push(widest);
        c = c + 1;
    }
    widths
}

/// The decimal text of a number is made of digits and starts with a zero only where it is one digit.
pub proof fn law_decimal_is_plain(n: nat)
    ensures
        decimal_spec(n).len() >= 1,
        forall|i: int| 0 <= i < decimal_spec(n).len() ==> '0' <= #[trigger] decimal_spec(n)[i] <= '9',
        decimal_spec(n)[0] == '0' ==> n == 0 && decimal_spec(n).len() == 1,
    decreases n,
{
    let text = decimal_spec(n);
    if n >= 10 {
        law_decimal_is_plain(n / 10);
        let front = decimal_spec(n / 10);
        assert(text =~= front.push(digit_char(n % 10)));
        assert forall|i: int| 0 <= i < text.len() implies '0' <= #[trigger] text[i] <= '9' by {
            if i < front.len() {
                assert(text[i] == front[i]);
            }
        }
        assert(text[0] == front[0]);
    }
}

/// Splitting respects separators: a text before one and a text behind it are split on their own.
pub proof fn law_pieces_concatenate(a: Seq<char>, b: Seq<char>, separator: char)
    ensures
        pieces(a.push(separator) + b, separator) == pieces(a, separator) + pieces(b, separator),
    decreases a.len(),
{
    let all = a.push(separator) + b;
    lemma_first(a, separator);
    let i: int = first(a, separator);
    assert forall|j: int| 0 <= j < i implies all[j] != separator by {
        assert(all[j] == a[j]);
    }
    lemma_first_is(all, separator, i);
    assert(all.take(i) =~= a.take(i));
    if i >= a.len() {
        assert(a.take(i) =~= a);
        assert(all.skip(i + 1) =~= b);
        assert(pieces(all, separator) =~= pieces(a, separator) + pieces(b, separator));
    } else {
        let rest = a.skip(i + 1);
        law_pieces_concatenate(rest, b, separator);
        assert(all.skip(i + 1) =~= rest.push(separator) + b);
        assert(pieces(all, separator) =~= pieces(a, separator) + pieces(b, separator));
    }
}

/// A text without separators is its only piece.
pub proof fn law_whole_text_is_one_piece(text: Seq<char>, separator: char)
    requires
        forall|i: int| 0 <= i < text.len() ==> #[trigger] text[i] != separator,
    ensures
        pieces(text, separator) == seq![text],
{
    lemma_first_is(text, separator, text.len() as int);
}

/// Replacing characters goes through a text from its start: two texts one behind the other are replaced
/// one behind the other.
pub proof fn law_mapped_concatenates(a: Seq<char>, b: Seq<char>, f: spec_fn(char) -> Seq<char>)
    ensures
        mapped(a + b, f) == mapped(a, f) + mapped(b, f),
    decreases b.len(),
{
    if b.len() == 0 {
        assert(a + b =~= a);
        assert(mapped(a, f) + mapped(b, f) =~= mapped(a, f));
    } else {
        law_mapped_concatenates(a, b.drop_last(), f);
        assert((a + b).drop_last() =~= a + b.drop_last());
        assert(mapped(a + b, f) =~= mapped(a, f) + mapped(b, f));
    }
}

/// The four characters that markup reserves are written as their entities, every other one as itself.
/// What is written holds no bracket or quote, and of two characters neither is written as a beginning of
/// the other.
pub proof fn law_markup_is_escaped(a: char, b: char)
    ensures
        escaped(a).len() == 1 ==> escaped(a) == seq![a],
        escaped(a).len() > 1 <==> (a == '&' || a == '<' || a == '>' || a == '"'),
        escaped(a).len() > 1 ==> escaped(a)[0] == '&' && escaped(a).last() == ';',
        a == '&' ==> escaped(a).subrange(1, escaped(a).len() - 1) == seq!['a', 'm', 'p'],
        a == '<' ==> escaped(a).subrange(1, escaped(a).len() - 1) == seq!['l', 't'],
        a == '>' ==> escaped(a).subrange(1, escaped(a).len() - 1) == seq!['g', 't'],
        a == '"' ==> escaped(a).subrange(1, escaped(a).len() - 1) == seq!['q', 'u', 'o', 't'],
        forall|i: int|
            0 <= i < escaped(a).len() ==> #[trigger] escaped(a)[i] != '<' && escaped(a)[i] != '>' && escaped(a)[i]
                != '"',
        a != b ==> escaped(a)[0] != escaped(b)[0] || (escaped(a).len() > 1 && escaped(b).len() > 1 && escaped(
            a,
        )[1] != escaped(b)[1]),
{
    reveal_strlit("&amp;");
    reveal_strlit("&lt;");
    reveal_strlit("&gt;");
    reveal_strlit("&quot;");
    let text = escaped(a);
    if a == '&' {
        assert(text.subrange(1, text.len() - 1) =~= seq!['a', 'm', 'p']);
    } else if a == '<' {
        assert(text.subrange(1, text.len() - 1) =~= seq!['l', 't']);
    } else if a == '>' {
        assert(text.subrange(1, text.len() - 1) =~= seq!['g', 't']);
    } else if a == '"' {
        assert(text.subrange(1, text.len() - 1) =~= seq!['q', 'u', 'o', 't']);
    }
}

/// The width of a column is the least that its header and every cell in it fit in.
pub proof fn law_width_is_largest(headers: Seq<String>, rows: Seq<Vec<String>>, c: int, n: nat, other: nat)
    requires
        n <= rows.len(),
    ensures
        bytes(headers[c]) <= width(headers, rows, c, n),
        forall|i: int|
            0 <= i < n && c < (#[trigger] rows[i])@.len() ==> bytes(rows[i]@[c]) <= width(headers, rows, c, n),
        (bytes(headers[c]) <= other && forall|i: int|
            0 <= i < n && c < (#[trigger] rows[i])@.len() ==> bytes(rows[i]@[c]) <= other) ==> width(
            headers,
            rows,
            c,
            n,
        ) <= other,
    decreases n,
{
    if n > 0 {
        law_width_is_largest(headers, rows, c, (n - 1) as nat, other);
        assert(rows[n - 1]@.len() == rows[n - 1]@.len());
    }
}

} // verus!
