//! What the writer writes, the lexer reads back: names, numbers and time ranges.
//!
//! The laws speak of a reader that has a text before it. Such a reader is one whose
//! bytes, from where it stands, begin with the UTF-8 form of the text.
use vstd::prelude::*;
use vstd::utf8::{
    char_is_scalar, char_u32_cast, encode_scalar, encode_utf8, encode_utf8_first_scalar,
    length_of_first_scalar,
};
use crate::text::{decimal, lemma_decimal_digits};
use crate::timed::time_range::{Bound, TimeRange};
use crate::tina::export::{escape, escaped_chars, is_plain, with_end, with_interval};
use crate::tina::lexer::{
    braced, braced_tail, identifier, in_class, int_with_unit, interval_end, is_digit,
    is_ident_char, next_token, scan, skip_blanks, small_int, takes_number, time_interval,
    token_at, value_of, Class, Lexed,
};
use crate::tina::reader::{byte_at, char_at, code_at, scalar, width, ReaderView};
use crate::tina::token::{KindView, TokenView};

verus! {

/// The characters of `text` stand before the reader, one behind the other.
pub open spec fn reads(r: ReaderView, text: Seq<char>) -> bool
    decreases text.len(),
{
    text.len() > 0 ==> {
        &&& !r.at_end()
        &&& r.peeked() == Some(text[0])
        &&& reads(r.advanced(), text.drop_first())
    }
}

/// The reader behind the next `n` characters.
pub open spec fn behind(r: ReaderView, n: nat) -> ReaderView
    decreases n,
{
    if n == 0 {
        r
    } else {
        behind(r.advanced(), (n - 1) as nat)
    }
}

/// The step that gives `value` and leaves the reader at `r`.
pub open spec fn read<T>(value: T, r: ReaderView) -> Lexed<T> {
    Ok((value, r))
}

/// What stands before the reader is a character, and it ends a run of `class`: it is not
/// of the class, or the text ends here.
pub open spec fn ends_run(r: ReaderView, class: Class) -> bool {
    r.peeked() is Some && (r.at_end() || !in_class(class, r.peeked()->0))
}

/// Reading `a` and then `b` is reading `a + b`.
pub proof fn lemma_reads_split(r: ReaderView, a: Seq<char>, b: Seq<char>)
    ensures
        reads(r, a + b) <==> reads(r, a) && reads(behind(r, a.len()), b),
    decreases a.len(),
{
    if a.len() == 0 {
        assert(a + b =~= b);
    } else {
        assert((a + b).drop_first() =~= a.drop_first() + b);
        assert((a + b)[0] == a[0]);
        lemma_reads_split(r.advanced(), a.drop_first(), b);
    }
}

/// Going behind `m` characters and then behind `n` is going behind `m + n`.
pub proof fn lemma_behind_add(r: ReaderView, m: nat, n: nat)
    ensures
        behind(behind(r, m), n) == behind(r, m + n),
    decreases m,
{
    if m > 0 {
        lemma_behind_add(r.advanced(), (m - 1) as nat, n);
    }
}

/// A run of characters of one class, with its end behind it, is read as a whole.
pub proof fn lemma_scan_run(r: ReaderView, class: Class, run: Seq<char>, acc: Seq<char>)
    requires
        reads(r, run),
        forall|i: int| 0 <= i < run.len() ==> in_class(class, #[trigger] run[i]),
        ends_run(behind(r, run.len()), class),
    ensures
        scan(r, class, acc) == read(acc + run, behind(r, run.len())),
    decreases run.len(),
{
    if run.len() == 0 {
        assert(acc + run =~= acc);
    } else {
        assert(in_class(class, run[0]));
        let rest = run.drop_first();
        assert forall|i: int| 0 <= i < rest.len() implies in_class(class, #[trigger] rest[i]) by {
            assert(rest[i] == run[i + 1]);
        }
        lemma_scan_run(r.advanced(), class, rest, acc.push(run[0]));
        assert(acc.push(run[0]) + rest =~= acc + run);
    }
}

/// How one character of a name stands between braces.
pub open spec fn escaped_char(c: char) -> Seq<char> {
    if c == '\\' || c == '{' || c == '}' {
        seq!['\\', c]
    } else {
        seq![c]
    }
}

/// The escaped form of a name begins with the escaped form of its first character.
proof fn lemma_escaped_front(s: Seq<char>, n: nat)
    requires
        0 < n <= s.len(),
    ensures
        escaped_chars(s, n) == escaped_char(s[0]) + escaped_chars(s.drop_first(), (n - 1) as nat),
    decreases n,
{
    let rest = s.drop_first();
    if n == 1 {
        assert(escaped_chars(s, 0) =~= Seq::<char>::empty());
        assert(escaped_chars(rest, 0) =~= Seq::<char>::empty());
        assert(escaped_chars(s, 1) =~= escaped_char(s[0]) + escaped_chars(rest, 0));
    } else {
        lemma_escaped_front(s, (n - 1) as nat);
        assert(rest[n - 2] == s[n - 1]);
        assert(escaped_chars(s, n) =~= escaped_char(s[0]) + escaped_chars(rest, (n - 1) as nat));
    }
}

/// The escaped form of a name and the closing brace are read as the name.
proof fn lemma_braced_name(r: ReaderView, s: Seq<char>, last: char, acc: Seq<char>)
    requires
        last != '\\',
        reads(r, escaped_chars(s, s.len()) + seq!['}']),
    ensures
        braced_tail(r, last, acc) == read(
            acc + s,
            behind(r, escaped_chars(s, s.len()).len() + 1),
        ),
    decreases s.len(),
{
    let text = escaped_chars(s, s.len()) + seq!['}'];
    if s.len() == 0 {
        assert(escaped_chars(s, 0) =~= Seq::<char>::empty());
        assert(text[0] == '}');
        assert(acc + s =~= acc);
        assert(behind(r, 1) == behind(r.advanced(), 0));
    } else {
        let c = s[0];
        let rest = s.drop_first();
        let tail = escaped_chars(rest, rest.len()) + seq!['}'];
        lemma_escaped_front(s, s.len());
        assert(text =~= escaped_char(c) + tail);
        assert(acc.push(c) + rest =~= acc + s);
        if c == '\\' || c == '{' || c == '}' {
            assert(text[0] == '\\');
            assert(text.drop_first()[0] == c);
            assert(text.drop_first().drop_first() =~= tail);
            let r1 = r.advanced();
            assert(reads(r1, text.drop_first()));
            lemma_braced_name(r1.advanced(), rest, ' ', acc.push(c));
            assert(braced_tail(r1, '\\', acc) == braced_tail(r1.advanced(), ' ', acc.push(c)));
            assert(braced_tail(r, last, acc) == braced_tail(r1, '\\', acc));
            lemma_behind_add(r, 2, escaped_chars(rest, rest.len()).len() + 1);
            assert(behind(r, 2) == r1.advanced()) by {
                assert(behind(r1, 1) == behind(r1.advanced(), 0));
            }
        } else {
            assert(text[0] == c);
            assert(text.drop_first() =~= tail);
            lemma_braced_name(r.advanced(), rest, c, acc.push(c));
            assert(braced_tail(r, last, acc) == braced_tail(r.advanced(), c, acc.push(c)));
        }
    }
}

/// A name is read back: where the written form of `name` stands before the reader, and
/// behind a plain name something that ends it, the next token is the name, and the
/// reader stands behind the written form.
pub proof fn lemma_name_is_read_back(r: ReaderView, name: Seq<char>, current: KindView)
    requires
        reads(r, escape(name)),
        is_plain(name) ==> ends_run(behind(r, name.len()), Class::Name),
    ensures
        next_token(r, current) == read(
            TokenView { kind: KindView::Identifier(name), position: r.next_position },
            behind(r, escape(name).len()),
        ),
{
    reveal(next_token);
    let text = escape(name);
    if is_plain(name) {
        let c = name[0];
        let rest = name.drop_first();
        assert(is_ident_char(c));
        assert(skip_blanks(r) is Ok && skip_blanks(r)->Ok_0 == r);
        assert forall|i: int| 0 <= i < rest.len() implies in_class(Class::Name, #[trigger] rest[i]) by {
            assert(rest[i] == name[i + 1]);
            assert(is_ident_char(name[i + 1]));
        }
        lemma_scan_run(r.advanced(), Class::Name, rest, seq![c]);
        assert(seq![c] + rest =~= name);
        assert(token_at(r, c, current) == identifier(r));
    } else {
        let inner = escaped_chars(name, name.len()) + seq!['}'];
        assert(text =~= seq!['{'] + inner);
        assert(text[0] == '{');
        assert(text.drop_first() =~= inner);
        assert(skip_blanks(r) is Ok && skip_blanks(r)->Ok_0 == r);
        lemma_braced_name(r.advanced(), name, ' ', Seq::empty());
        assert(Seq::<char>::empty() + name =~= name);
        assert(token_at(r, '{', current) == braced(r));
        assert(text.len() == escaped_chars(name, name.len()).len() + 2);
    }
}

/// The character `c` stands before the reader.
pub open spec fn before(r: ReaderView, c: char) -> bool {
    !r.at_end() && r.peeked() == Some(c)
}

/// Where `a + b` is read and `b` is not empty, the first character of `b` stands behind `a`.
proof fn lemma_reads_next(r: ReaderView, a: Seq<char>, b: Seq<char>)
    requires
        reads(r, a + b),
        b.len() > 0,
    ensures
        reads(r, a),
        reads(behind(r, a.len()), b),
        before(behind(r, a.len()), b[0]),
{
    lemma_reads_split(r, a, b);
}

/// A numeral writes its number.
pub proof fn lemma_value_of_decimal(n: nat)
    ensures
        value_of(decimal(n)) == n,
    decreases n,
{
    if n < 10 {
        assert(decimal(n).drop_last() =~= Seq::<char>::empty());
        assert(value_of(decimal(n).drop_last()) == 0);
    } else {
        lemma_value_of_decimal(n / 10);
        assert(decimal(n).drop_last() =~= decimal(n / 10));
    }
}

/// A number is read back: where its numeral stands before the reader, and behind it a
/// character that is no digit and no unit, the number is read, and the reader stands
/// behind the numeral.
pub proof fn lemma_number_is_read_back(r: ReaderView, n: usize, c: char)
    requires
        reads(r, decimal(n as nat)),
        before(behind(r, decimal(n as nat).len()), c),
        !is_digit(c) && c != 'K' && c != 'M',
    ensures
        int_with_unit(r) == read(n, behind(r, decimal(n as nat).len())),
{
    let numeral = decimal(n as nat);
    lemma_decimal_digits(n as nat);
    lemma_value_of_decimal(n as nat);
    assert(is_digit(numeral[0]));
    assert forall|i: int| 0 <= i < numeral.len() implies in_class(Class::Digits, #[trigger] numeral[i]) by {}
    lemma_scan_run(r, Class::Digits, numeral, Seq::empty());
    assert(Seq::<char>::empty() + numeral =~= numeral);
    assert(small_int(r) == read(n, behind(r, numeral.len())));
}

/// A weight is read back: behind a name or the mark of an arc, the numeral of `n` is
/// read as the number `n`.
pub proof fn lemma_weight_is_read_back(r: ReaderView, n: usize, c: char, current: KindView)
    requires
        takes_number(current),
        reads(r, decimal(n as nat)),
        before(behind(r, decimal(n as nat).len()), c),
        !is_digit(c) && c != 'K' && c != 'M',
    ensures
        next_token(r, current) == read(
            TokenView { kind: KindView::Int(n), position: r.next_position },
            behind(r, decimal(n as nat).len()),
        ),
{
    reveal(next_token);
    lemma_decimal_digits(n as nat);
    lemma_number_is_read_back(r, n, c);
    let d = decimal(n as nat)[0];
    assert(is_digit(d));
    assert(skip_blanks(r) is Ok && skip_blanks(r)->Ok_0 == r);
    assert(token_at(r, d, current) == read(KindView::Int(n), behind(r, decimal(n as nat).len())));
}

/// The tokens of a place are read back: the numeral of `n` in round brackets is read as
/// the number `n`.
pub proof fn lemma_marking_is_read_back(r: ReaderView, n: usize, current: KindView)
    requires
        reads(r, seq!['('] + decimal(n as nat) + seq![')']),
    ensures
        next_token(r, current) == read(
            TokenView { kind: KindView::Int(n), position: r.next_position },
            behind(r, decimal(n as nat).len() + 2),
        ),
{
    reveal(next_token);
    let numeral = decimal(n as nat);
    let text = seq!['('] + numeral + seq![')'];
    lemma_decimal_digits(n as nat);
    lemma_value_of_decimal(n as nat);
    assert(text =~= seq!['('] + (numeral + seq![')']));
    assert(text[0] == '(');
    assert(text.drop_first() =~= numeral + seq![')']);
    let r1 = r.advanced();
    lemma_reads_next(r1, numeral, seq![')']);
    let r2 = behind(r1, numeral.len());
    assert forall|i: int| 0 <= i < numeral.len() implies in_class(Class::Digits, #[trigger] numeral[i]) by {}
    lemma_scan_run(r1, Class::Digits, numeral, Seq::empty());
    assert(Seq::<char>::empty() + numeral =~= numeral);
    assert(small_int(r1) == read(n, r2));
    assert(int_with_unit(r) == read(n, r2.advanced()));
    assert(skip_blanks(r) is Ok && skip_blanks(r)->Ok_0 == r);
    assert(behind(r, numeral.len() + 2) == r2.advanced()) by {
        lemma_behind_add(r1, numeral.len(), 1);
        assert(behind(r2, 1) == behind(r2.advanced(), 0));
    }
}

/// The end of a time range is read back.
proof fn lemma_end_is_read_back(r: ReaderView, end: Bound)
    requires
        reads(r, with_end(end, Seq::empty())),
    ensures
        interval_end(r) == read(end, behind(r, (with_end(end, Seq::empty()).len() - 1) as nat)),
        with_end(end, Seq::empty()).len() >= 3,
{
    reveal_strlit("] ");
    reveal_strlit("[ ");
    reveal_strlit("w[ ");
    let text = with_end(end, Seq::empty());
    match end {
        Bound::Infinity => {
            assert(text =~= seq!['w', '[', ' ']);
            assert(text[0] == 'w');
            assert(text.drop_first()[0] == '[');
            let r1 = r.advanced();
            assert(before(r, 'w'));
            assert(reads(r1, text.drop_first()));
            assert(before(r1, '['));
            assert(behind(r, 2) == r1.advanced()) by {
                assert(behind(r1, 1) == behind(r1.advanced(), 0));
            }
            assert(text.len() == 3);
        },
        Bound::Closed(e) => {
            let numeral = decimal(e as nat);
            lemma_decimal_digits(e as nat);
            assert(text =~= numeral + seq![']', ' ']);
            lemma_reads_next(r, numeral, seq![']', ' ']);
            lemma_number_is_read_back(r, e, ']');
            assert(is_digit(numeral[0]));
            assert(text[0] == numeral[0]);
            let r1 = behind(r, numeral.len());
            assert(behind(r, numeral.len() + 1) == r1.advanced()) by {
                lemma_behind_add(r, numeral.len(), 1);
                assert(behind(r1, 1) == behind(r1.advanced(), 0));
            }
        },
        Bound::Open(e) => {
            let numeral = decimal(e as nat);
            lemma_decimal_digits(e as nat);
            assert(text =~= numeral + seq!['[', ' ']);
            lemma_reads_next(r, numeral, seq!['[', ' ']);
            lemma_number_is_read_back(r, e, '[');
            assert(is_digit(numeral[0]));
            assert(text[0] == numeral[0]);
            let r1 = behind(r, numeral.len());
            assert(behind(r, numeral.len() + 1) == r1.advanced()) by {
                lemma_behind_add(r, numeral.len(), 1);
                assert(behind(r1, 1) == behind(r1.advanced(), 0));
            }
        },
    }
}

/// A time range is read back: where the written form of a range stands before the
/// reader, the next token is the range, and the reader stands behind its last bracket.
/// The range from zero without end is not written, and a range without a start cannot be.
pub proof fn lemma_interval_is_read_back(r: ReaderView, time: TimeRange, current: KindView)
    requires
        time != (TimeRange { start: Bound::Closed(0), end: Bound::Infinity }),
        with_interval(time, Seq::empty()) is Ok,
        reads(r, with_interval(time, Seq::empty())->Ok_0),
    ensures
        with_interval(time, Seq::empty())->Ok_0.len() >= 6,
        next_token(r, current) == read(
            TokenView {
                kind: KindView::TimeInterval(time.start, time.end),
                position: r.next_position,
            },
            behind(r, (with_interval(time, Seq::empty())->Ok_0.len() - 1) as nat),
        ),
{
    reveal(next_token);
    reveal_strlit("[");
    reveal_strlit("]");
    reveal_strlit(",");
    let text = with_interval(time, Seq::empty())->Ok_0;
    let bracket = if time.start is Closed {
        '['
    } else {
        ']'
    };
    let v = match time.start {
        Bound::Closed(v) => v,
        Bound::Open(v) => v,
        Bound::Infinity => 0,
    };
    let numeral = decimal(v as nat);
    let tail = with_end(time.end, Seq::empty());
    lemma_decimal_digits(v as nat);
    assert(text =~= seq![bracket] + (numeral + (seq![','] + tail))) by {
        reveal_strlit("] ");
        reveal_strlit("[ ");
        reveal_strlit("w[ ");
    }
    assert(text[0] == bracket);
    assert(text.drop_first() =~= numeral + (seq![','] + tail));
    let r1 = r.advanced();
    lemma_reads_next(r1, numeral, seq![','] + tail);
    lemma_number_is_read_back(r1, v, ',');
    let r2 = behind(r1, numeral.len());
    assert((seq![','] + tail).drop_first() =~= tail);
    let r3 = r2.advanced();
    lemma_end_is_read_back(r3, time.end);
    assert(skip_blanks(r) is Ok && skip_blanks(r)->Ok_0 == r);
    assert(token_at(r, bracket, current) == time_interval(r));
    assert(behind(r, (text.len() - 1) as nat) == behind(r3, (tail.len() - 1) as nat)) by {
        assert(behind(r, (numeral.len() + 1) as nat) == r2);
        assert(behind(r2, 1) == behind(r2.advanced(), 0));
        lemma_behind_add(r, numeral.len() + 1, 1);
        lemma_behind_add(r, numeral.len() + 2, (tail.len() - 1) as nat);
    }
}

/// A first byte below `0x80` is a character of one byte, and the byte is its code.
proof fn lemma_one_byte(b0: u8)
    by (bit_vector)
    requires
        b0 <= 0x7f,
    ensures
        (b0 & 0x7F) as u32 == b0 as u32,
{
}

/// The first byte of a character of two bytes, and the code that the two bytes stand for.
proof fn lemma_two_bytes(b0: u8, b1: u8)
    by (bit_vector)
    requires
        0xc0 <= b0 <= 0xdf,
    ensures
        b0 > 0x80,
        (b0 & 0xE0) == 0xC0,
        (((b0 as u32) & 0x1F) << 6) | ((b1 as u32) & 0x3F) == (((b0 & 0x1F) as u32) << 6) | ((b1
            & 0x3f) as u32),
{
}

/// The first byte of a character of three bytes, and the code that the three bytes stand
/// for.
proof fn lemma_three_bytes(b0: u8, b1: u8, b2: u8)
    by (bit_vector)
    requires
        0xe0 <= b0 <= 0xef,
    ensures
        b0 > 0x80,
        (b0 & 0xE0) != 0xC0,
        (b0 & 0xF0) == 0xE0,
        (((b0 as u32) & 0x0F) << 12) | (((b1 as u32) & 0x3F) << 6) | ((b2 as u32) & 0x3F) == (((b0
            & 0x0F) as u32) << 12) | (((b1 & 0x3f) as u32) << 6) | ((b2 & 0x3f) as u32),
{
}

/// The first byte of a character of four bytes, and the code that the four bytes stand
/// for.
proof fn lemma_four_bytes(b0: u8, b1: u8, b2: u8, b3: u8)
    by (bit_vector)
    requires
        0xf0 <= b0 <= 0xf7,
    ensures
        b0 > 0x80,
        (b0 & 0xE0) != 0xC0,
        (b0 & 0xF0) != 0xE0,
        (b0 & 0xF8) == 0xF0,
        (((b0 as u32) & 0x07) << 18) | (((b1 as u32) & 0x3F) << 12) | (((b2 as u32) & 0x3F) << 6)
            | ((b3 as u32) & 0x3F) == (((b0 & 0x07) as u32) << 18) | (((b1 & 0x3f) as u32) << 12)
            | (((b2 & 0x3f) as u32) << 6) | ((b3 & 0x3f) as u32),
{
}

/// A text is read from its bytes: where the bytes before the reader begin with the
/// UTF-8 form of `text`, the characters of `text` stand before the reader, and behind
/// them the reader stands behind those bytes.
pub proof fn lemma_text_is_read(r: ReaderView, text: Seq<char>, rest: Seq<u8>)
    requires
        r.offset <= r.bytes.len(),
        r.bytes.skip(r.offset as int) == encode_utf8(text) + rest,
    ensures
        reads(r, text),
        behind(r, text.len()).bytes == r.bytes,
        behind(r, text.len()).offset == r.offset + encode_utf8(text).len(),
    decreases text.len(),
{
    if text.len() > 0 {
        let c = text[0];
        let tail = text.drop_first();
        let all = encode_utf8(text);
        let first = encode_scalar(c as u32);
        let i = r.offset as int;
        encode_utf8_first_scalar(text);
        char_is_scalar(c);
        char_u32_cast(c, c as u32);
        assert(all =~= first + encode_utf8(tail));
        let k = first.len() as int;
        assert(1 <= k <= 4);
        assert(k == length_of_first_scalar(all));
        assert forall|j: int| 0 <= j < k implies byte_at(r.bytes, i + j) == #[trigger] all[j] by {
            assert((all + rest)[j] == all[j]);
            assert(r.bytes.skip(i)[j] == r.bytes[i + j]);
        }
        assert(all[0] == byte_at(r.bytes, i));
        let b0 = all[0];
        if k == 1 {
            lemma_one_byte(b0);
        } else if k == 2 {
            assert(all[1] == byte_at(r.bytes, i + 1));
            lemma_two_bytes(b0, all[1]);
        } else if k == 3 {
            assert(all[1] == byte_at(r.bytes, i + 1));
            assert(all[2] == byte_at(r.bytes, i + 2));
            lemma_three_bytes(b0, all[1], all[2]);
        } else {
            assert(all[1] == byte_at(r.bytes, i + 1));
            assert(all[2] == byte_at(r.bytes, i + 2));
            assert(all[3] == byte_at(r.bytes, i + 3));
            lemma_four_bytes(b0, all[1], all[2], all[3]);
        }
        assert(width(b0) == k);
        assert(code_at(r.bytes, i) == c as u32);
        assert(scalar(c as u32) == Some(c));
        assert(r.peeked() == Some(c));
        assert(r.bytes.skip(i).len() >= k);
        let r1 = r.advanced();
        assert(r1.offset == i + k);
        assert(r1.bytes.skip(r1.offset as int) =~= encode_utf8(tail) + rest) by {
            let after = encode_utf8(tail) + rest;
            assert(all + rest =~= first + after);
            assert((first + after).skip(k) =~= after);
            assert(r.bytes.skip(i + k) =~= r.bytes.skip(i).skip(k));
        }
        lemma_text_is_read(r1, tail, rest);
    }
}

/// A name is read back from the bytes of its written form: where the bytes before the
/// reader are the UTF-8 form of the written form of `name` and of what follows it, and
/// what follows a plain name does not go on with a character of names, the next token is
/// the name.
pub proof fn lemma_written_name_is_read_back(
    r: ReaderView,
    name: Seq<char>,
    follow: Seq<char>,
    current: KindView,
)
    requires
        r.offset <= r.bytes.len(),
        r.bytes.skip(r.offset as int) == encode_utf8(escape(name) + follow),
        is_plain(name) && follow.len() > 0 ==> !is_ident_char(follow[0]),
    ensures
        next_token(r, current) == read(
            TokenView { kind: KindView::Identifier(name), position: r.next_position },
            behind(r, escape(name).len()),
        ),
{
    let written = escape(name);
    assert(encode_utf8(written + follow) + Seq::<u8>::empty() =~= encode_utf8(written + follow));
    lemma_text_is_read(r, written + follow, Seq::empty());
    lemma_reads_split(r, written, follow);
    let end = behind(r, written.len());
    if is_plain(name) {
        if follow.len() == 0 {
            assert(written + follow =~= written);
            assert(r.bytes.skip(r.offset as int).len() == r.bytes.len() - r.offset);
            assert(end.at_end());
            assert(byte_at(end.bytes, end.offset as int) == 0);
            assert(width(0u8) == 1);
            assert(code_at(end.bytes, end.offset as int) == 0);
            assert(char_at(end.bytes, end.offset as int) is Some);
        }
    }
    lemma_name_is_read_back(r, name, current);
}

/// The blanks before a token do not count: where blanks and then something else stand
/// before the reader, the next token is the one that stands behind the blanks.
pub proof fn lemma_blanks_are_skipped(
    r: ReaderView,
    blanks: Seq<char>,
    c: char,
    current: KindView,
)
    requires
        reads(r, blanks),
        forall|i: int| 0 <= i < blanks.len() ==> #[trigger] blanks[i] == ' ',
        behind(r, blanks.len()).peeked() == Some(c),
        c != ' ' && c != '\t' && c != '\r',
    ensures
        skip_blanks(r) is Ok,
        skip_blanks(r)->Ok_0 == behind(r, blanks.len()),
        next_token(r, current) == next_token(behind(r, blanks.len()), current),
    decreases blanks.len(),
{
    reveal(next_token);
    if blanks.len() > 0 {
        let rest = blanks.drop_first();
        assert(blanks[0] == ' ');
        assert forall|i: int| 0 <= i < rest.len() implies #[trigger] rest[i] == ' ' by {
            assert(rest[i] == blanks[i + 1]);
        }
        lemma_blanks_are_skipped(r.advanced(), rest, c, current);
    }
    let end = behind(r, blanks.len());
    assert(skip_blanks(end) is Ok && skip_blanks(end)->Ok_0 == end);
}

/// The marks are read back: the mark of an arc, the arrow, the colon before a label, the
/// sign of a priority and the end of a line are the tokens that they stand for.
pub proof fn lemma_mark_is_read_back(r: ReaderView, current: KindView)
    ensures
        before(r, '*') ==> next_token(r, current) == read(
            TokenView { kind: KindView::NormalArc, position: r.next_position },
            r.advanced(),
        ),
        before(r, ':') ==> next_token(r, current) == read(
            TokenView { kind: KindView::InlineLabel, position: r.next_position },
            r.advanced(),
        ),
        before(r, '>') ==> next_token(r, current) == read(
            TokenView { kind: KindView::GreaterThan, position: r.next_position },
            r.advanced(),
        ),
        before(r, '\n') ==> next_token(r, current) == read(
            TokenView { kind: KindView::NewLine, position: r.next_position },
            r.advanced(),
        ),
        before(r, '-') && before(r.advanced(), '>') ==> next_token(r, current) == read(
            TokenView { kind: KindView::Arrow, position: r.next_position },
            r.advanced().advanced(),
        ),
        before(r, '?') && before(r.advanced(), '-') ==> next_token(r, current) == read(
            TokenView { kind: KindView::InhibitorArc, position: r.next_position },
            r.advanced().advanced(),
        ),
        before(r, '?') && r.advanced().peeked() is Some && r.advanced().peeked() != Some('-')
            ==> next_token(r, current) == read(
            TokenView { kind: KindView::TestArc, position: r.next_position },
            r.advanced(),
        ),
{
    reveal(next_token);
}

/// The words that begin a line are read back: where `net`, `pl`, `tr` or `pr` stands
/// before the reader, and behind it something that ends the word, the next token is the
/// one that begins a line of that kind.
pub proof fn lemma_keyword_is_read_back(r: ReaderView, word: Seq<char>, current: KindView)
    requires
        word == seq!['n', 'e', 't'] || word == seq!['p', 'l'] || word == seq!['t', 'r'] || word
            == seq!['p', 'r'],
        reads(r, word),
        ends_run(behind(r, word.len()), Class::Name),
    ensures
        next_token(r, current) == read(
            TokenView {
                kind: if word == seq!['n', 'e', 't'] {
                    KindView::Net
                } else if word == seq!['p', 'l'] {
                    KindView::Place
                } else if word == seq!['t', 'r'] {
                    KindView::Transition
                } else {
                    KindView::Priority
                },
                position: r.next_position,
            },
            behind(r, word.len()),
        ),
{
    reveal(next_token);
    let c = word[0];
    let rest = word.drop_first();
    assert(is_ident_char(c));
    assert(skip_blanks(r) is Ok && skip_blanks(r)->Ok_0 == r);
    assert forall|i: int| 0 <= i < rest.len() implies in_class(Class::Name, #[trigger] rest[i]) by {
        assert(rest[i] == word[i + 1]);
    }
    lemma_scan_run(r.advanced(), Class::Name, rest, seq![c]);
    assert(seq![c] + rest =~= word);
    assert(token_at(r, c, current) == identifier(r));
    assert(crate::tina::lexer::is_word(word, word));
}

/// Reading characters moves the reader on in its text: behind `n` characters that it
/// reads it stands at least `n` bytes further, in the same bytes.
pub proof fn lemma_behind_offset(r: ReaderView, text: Seq<char>, n: nat)
    requires
        reads(r, text),
        n <= text.len(),
        r.offset <= r.bytes.len(),
    ensures
        behind(r, n).bytes == r.bytes,
        behind(r, n).offset >= r.offset + n,
        behind(r, n).offset <= r.bytes.len(),
        reads(behind(r, n), text.skip(n as int)),
    decreases n,
{
    if n > 0 {
        assert(text.skip(n as int) =~= text.drop_first().skip(n - 1));
        lemma_behind_offset(r.advanced(), text.drop_first(), (n - 1) as nat);
    } else {
        assert(text.skip(0) =~= text);
    }
}

/// At the end of the text the next token is the end of the text.
pub proof fn lemma_end_is_read(r: ReaderView, current: KindView)
    requires
        r.at_end(),
    ensures
        next_token(r, current) is Ok,
        next_token(r, current)->Ok_0.0.kind is EndOfFile,
{
    reveal(next_token);
    assert(byte_at(r.bytes, r.offset as int) == 0);
    assert(width(0u8) == 1);
    assert(code_at(r.bytes, r.offset as int) == 0);
    assert(r.peeked() == Some('\0'));
    assert(skip_blanks(r) is Ok && skip_blanks(r)->Ok_0 == r);
}

} // verus!
