//! The pieces that a written net is made of, and the tokens that they are read as.
use vstd::prelude::*;
use crate::text::{decimal, lemma_decimal_digits};
use crate::timed::time_range::TimeRange;
use crate::tina::export::{escape, is_plain, with_interval};
use crate::tina::laws::{
    before, behind, ends_run, lemma_behind_add, lemma_behind_offset, lemma_blanks_are_skipped,
    lemma_interval_is_read_back, lemma_keyword_is_read_back, lemma_mark_is_read_back,
    lemma_marking_is_read_back, lemma_name_is_read_back, lemma_reads_split,
    lemma_weight_is_read_back, reads,
};
use crate::tina::lexer::{next_token, Class};
use crate::tina::reader::ReaderView;
use crate::tina::round_trip::{
    always, has_next, lemma_skip_add, lemma_stream_join, next_kind, next_spot, skip, stream, Spot,
};
use crate::tina::token::KindView;

verus! {

/// A piece of a written net.
pub enum Piece {
    /// The word `net`.
    Net,
    /// The word `pl`.
    Place,
    /// The word `tr`.
    Transition,
    /// The word `pr`.
    Priority,
    /// The sign `>`.
    Greater,
    /// A name or a label, as it is written.
    Name(Seq<char>),
    /// The colon before a label.
    Colon,
    /// The tokens of a place, in round brackets.
    Tokens(usize),
    /// The mark `*` and a weight.
    Star(usize),
    /// The mark `?` and a weight.
    Test(usize),
    /// The mark `?-` and a weight.
    Inhibit(usize),
    /// A time range, with the blank behind it.
    Range(TimeRange),
    /// The arrow.
    Arrow,
    /// The end of a line.
    Line,
    /// A blank.
    Blank,
}

/// The text of a piece.
pub open spec fn piece_text(p: Piece) -> Seq<char> {
    match p {
        Piece::Net => seq!['n', 'e', 't'],
        Piece::Place => seq!['p', 'l'],
        Piece::Transition => seq!['t', 'r'],
        Piece::Priority => seq!['p', 'r'],
        Piece::Greater => seq!['>'],
        Piece::Name(n) => escape(n),
        Piece::Colon => seq![':'],
        Piece::Tokens(n) => seq!['('] + decimal(n as nat) + seq![')'],
        Piece::Star(n) => seq!['*'] + decimal(n as nat),
        Piece::Test(n) => seq!['?'] + decimal(n as nat),
        Piece::Inhibit(n) => seq!['?', '-'] + decimal(n as nat),
        Piece::Range(time) => with_interval(time, Seq::empty())->Ok_0,
        Piece::Arrow => seq!['-', '>'],
        Piece::Line => seq!['\n'],
        Piece::Blank => seq![' '],
    }
}

/// The tokens that a piece is read as.
pub open spec fn piece_kinds(p: Piece) -> Seq<KindView> {
    match p {
        Piece::Net => seq![KindView::Net],
        Piece::Place => seq![KindView::Place],
        Piece::Transition => seq![KindView::Transition],
        Piece::Priority => seq![KindView::Priority],
        Piece::Greater => seq![KindView::GreaterThan],
        Piece::Name(n) => seq![KindView::Identifier(n)],
        Piece::Colon => seq![KindView::InlineLabel],
        Piece::Tokens(n) => seq![KindView::Int(n)],
        Piece::Star(n) => seq![KindView::NormalArc, KindView::Int(n)],
        Piece::Test(n) => seq![KindView::TestArc, KindView::Int(n)],
        Piece::Inhibit(n) => seq![KindView::InhibitorArc, KindView::Int(n)],
        Piece::Range(time) => seq![KindView::TimeInterval(time.start, time.end)],
        Piece::Arrow => seq![KindView::Arrow],
        Piece::Line => seq![KindView::NewLine],
        Piece::Blank => Seq::empty(),
    }
}

/// How many blanks a piece ends with.
pub open spec fn piece_trailing(p: Piece) -> nat {
    match p {
        Piece::Range(_) => 1,
        Piece::Blank => 1,
        _ => 0,
    }
}

/// The piece must be followed by a character that ends it: a word, a name and a weight
/// go on with every character of names.
pub open spec fn needs_stop(p: Piece) -> bool {
    p is Net || p is Place || p is Transition || p is Priority || p is Name || p is Star
        || p is Test || p is Inhibit
}

/// A character that ends a word, a name or a weight.
pub open spec fn is_stop(c: char) -> bool {
    c == ' ' || c == '\n' || c == '*' || c == '?'
}

/// The piece can be written: a time range is not the one that is left out, and has a
/// start.
pub open spec fn piece_ok(p: Piece) -> bool {
    p matches Piece::Range(time) ==> time != always() && !(time.start is Infinity)
}

/// `n` blanks.
pub open spec fn spaces(n: nat) -> Seq<char> {
    Seq::new(n, |i: int| ' ')
}

/// Where blanks and then a text stand before a reader, the reader behind the blanks has
/// the text before it, and the next token is the one that stands behind the blanks.
proof fn lemma_behind_blanks(r: ReaderView, nb: nat, text: Seq<char>, k: KindView)
    requires
        reads(r, spaces(nb) + text),
        r.offset <= r.bytes.len(),
        text.len() > 0,
        text[0] != ' ' && text[0] != '\t' && text[0] != '\r',
    ensures
        reads(behind(r, nb), text),
        next_token(r, k) == next_token(behind(r, nb), k),
        behind(r, nb).bytes == r.bytes,
        behind(r, nb).offset >= r.offset,
        behind(r, nb).offset <= r.bytes.len(),
{
    lemma_reads_split(r, spaces(nb), text);
    lemma_behind_offset(r, spaces(nb) + text, nb);
    lemma_blanks_are_skipped(r, spaces(nb), text[0], k);
}

/// A piece with one token is read: where blanks and then the piece stand before the
/// reader, and the next token begins behind the blanks and ends `used` characters
/// further on with the kind of the piece, the token of the piece comes next, and the spot
/// behind it is where the token ends.
proof fn lemma_one_token(r: ReaderView, k: KindView, nb: nat, text: Seq<char>, kind: KindView, used: nat)
    requires
        reads(r, spaces(nb) + text),
        r.offset <= r.bytes.len(),
        0 < used <= text.len(),
        text[0] != ' ' && text[0] != '\t' && text[0] != '\r',
        next_token(behind(r, nb), k) is Ok,
        next_token(behind(r, nb), k)->Ok_0.0.kind == kind,
        next_token(behind(r, nb), k)->Ok_0.1 == behind(behind(r, nb), used),
    ensures
        stream(Spot { r, k }, seq![kind]),
        skip(Spot { r, k }, 1) == (Spot { r: behind(r, nb + used), k: kind }),
        has_next(Spot { r, k }),
        next_kind(Spot { r, k }) == kind,
        next_spot(Spot { r, k }) == (Spot { r: behind(r, nb + used), k: kind }),
        behind(r, nb + used).bytes == r.bytes,
        behind(r, nb + used).offset <= r.bytes.len(),
        behind(r, nb + used).offset > r.offset,
{
    reveal(has_next);
    reveal_with_fuel(stream, 2);
    let s = Spot { r, k };
    lemma_behind_blanks(r, nb, text, k);
    let r0 = behind(r, nb);
    lemma_behind_offset(r0, text, used);
    lemma_behind_add(r, nb, used);
    assert(seq![kind].drop_first() =~= Seq::<KindView>::empty());
    assert(skip(s, 1) == skip(next_spot(s), 0));
}

/// Where a text and then a character stand before a reader, the character stands behind
/// the text.
proof fn lemma_follow(r: ReaderView, text: Seq<char>, follow: Seq<char>)
    requires
        reads(r, text + follow),
        follow.len() > 0,
    ensures
        reads(r, text),
        before(behind(r, text.len()), follow[0]),
        is_stop(follow[0]) ==> ends_run(behind(r, text.len()), Class::Name),
{
    lemma_reads_split(r, text, follow);
}

/// A piece with a mark and a weight is read: the token of the mark and the number.
proof fn lemma_two_tokens(
    r: ReaderView,
    k: KindView,
    nb: nat,
    mark: Seq<char>,
    kind: KindView,
    n: usize,
    follow: Seq<char>,
)
    requires
        reads(r, spaces(nb) + (mark + decimal(n as nat)) + follow),
        r.offset <= r.bytes.len(),
        mark.len() > 0,
        mark[0] != ' ' && mark[0] != '\t' && mark[0] != '\r',
        kind is NormalArc || kind is TestArc || kind is InhibitorArc,
        next_token(behind(r, nb), k) is Ok,
        next_token(behind(r, nb), k)->Ok_0.0.kind == kind,
        next_token(behind(r, nb), k)->Ok_0.1 == behind(behind(r, nb), mark.len()),
        follow.len() > 0,
        is_stop(follow[0]),
    ensures
        stream(Spot { r, k }, seq![kind, KindView::Int(n)]),
        skip(Spot { r, k }, 2) == (Spot {
            r: behind(r, nb + mark.len() + decimal(n as nat).len()),
            k: KindView::Int(n),
        }),
        behind(r, nb + mark.len() + decimal(n as nat).len()).bytes == r.bytes,
        behind(r, nb + mark.len() + decimal(n as nat).len()).offset <= r.bytes.len(),
{
    reveal(has_next);
    reveal_with_fuel(stream, 3);
    let s = Spot { r, k };
    let number = decimal(n as nat);
    let text = mark + number;
    lemma_decimal_digits(n as nat);
    assert(text[0] == mark[0]);
    assert(spaces(nb) + text + follow =~= spaces(nb) + (text + follow));
    lemma_reads_split(r, spaces(nb) + text, follow);
    lemma_one_token(r, k, nb, text, kind, mark.len());
    let r1 = behind(r, nb + mark.len());
    let s1 = Spot { r: r1, k: kind };
    assert(spaces(nb) + text + follow =~= (spaces(nb) + mark) + (number + follow));
    lemma_reads_split(r, spaces(nb) + mark, number + follow);
    assert((spaces(nb) + mark).len() == nb + mark.len());
    lemma_follow(r1, number, follow);
    lemma_weight_is_read_back(r1, n, follow[0], kind);
    assert(spaces(0) + number =~= number);
    assert(behind(r1, 0) == r1);
    lemma_one_token(r1, kind, 0, number, KindView::Int(n), number.len());
    lemma_behind_add(r, nb + mark.len(), number.len());
    let kinds = seq![kind, KindView::Int(n)];
    assert(kinds.drop_first() =~= seq![KindView::Int(n)]);
    assert(skip(s, 2) == skip(next_spot(s), 1));
}

/// A piece is read as its tokens: where blanks and then the piece stand before the
/// reader, and behind a piece that needs it a character that ends it, the tokens of the
/// piece come next, and the spot behind them is the end of the piece, before the blanks
/// that it ends with.
pub proof fn lemma_piece(r: ReaderView, k: KindView, nb: nat, p: Piece, follow: Seq<char>)
    requires
        reads(r, spaces(nb) + piece_text(p) + follow),
        r.offset <= r.bytes.len(),
        piece_ok(p),
        !(p is Blank),
        needs_stop(p) ==> follow.len() > 0 && is_stop(follow[0]),
    ensures
        stream(Spot { r, k }, piece_kinds(p)),
        skip(Spot { r, k }, piece_kinds(p).len()) == (Spot {
            r: behind(r, (nb + piece_text(p).len() - piece_trailing(p)) as nat),
            k: piece_kinds(p).last(),
        }),
        behind(r, (nb + piece_text(p).len() - piece_trailing(p)) as nat).bytes == r.bytes,
        behind(r, (nb + piece_text(p).len() - piece_trailing(p)) as nat).offset <= r.bytes.len(),
        piece_text(p).len() > piece_trailing(p),
{
    let text = piece_text(p);
    assert(spaces(nb) + text + follow =~= spaces(nb) + (text + follow));
    lemma_reads_split(r, spaces(nb), text + follow);
    assert(spaces(nb).len() == nb);
    let r0 = behind(r, nb);
    lemma_reads_split(r0, text, follow);
    assert(spaces(nb) + text + follow =~= (spaces(nb) + text) + follow);
    lemma_reads_split(r, spaces(nb) + text, follow);
    match p {
        Piece::Net => {
            lemma_follow(r0, text, follow);
            lemma_keyword_is_read_back(r0, text, k);
            lemma_one_token(r, k, nb, text, KindView::Net, 3);
        },
        Piece::Place => {
            lemma_follow(r0, text, follow);
            lemma_keyword_is_read_back(r0, text, k);
            lemma_one_token(r, k, nb, text, KindView::Place, 2);
        },
        Piece::Transition => {
            lemma_follow(r0, text, follow);
            lemma_keyword_is_read_back(r0, text, k);
            lemma_one_token(r, k, nb, text, KindView::Transition, 2);
        },
        Piece::Priority => {
            lemma_follow(r0, text, follow);
            lemma_keyword_is_read_back(r0, text, k);
            lemma_one_token(r, k, nb, text, KindView::Priority, 2);
        },
        Piece::Greater => {
            lemma_mark_is_read_back(r0, k);
            assert(behind(r0, 1) == behind(r0.advanced(), 0));
            lemma_one_token(r, k, nb, text, KindView::GreaterThan, 1);
        },
        Piece::Name(n) => {
            lemma_follow(r0, text, follow);
            assert(text.len() > 0 && text[0] != ' ' && text[0] != '\t' && text[0] != '\r') by {
                if is_plain(n) {
                    assert(crate::tina::lexer::is_ident_char(n[0]));
                } else {
                    assert(text[0] == '{');
                }
            }
            lemma_name_is_read_back(r0, n, k);
            lemma_one_token(r, k, nb, text, KindView::Identifier(n), text.len());
        },
        Piece::Colon => {
            lemma_mark_is_read_back(r0, k);
            assert(behind(r0, 1) == behind(r0.advanced(), 0));
            lemma_one_token(r, k, nb, text, KindView::InlineLabel, 1);
        },
        Piece::Line => {
            lemma_mark_is_read_back(r0, k);
            assert(behind(r0, 1) == behind(r0.advanced(), 0));
            lemma_one_token(r, k, nb, text, KindView::NewLine, 1);
        },
        Piece::Arrow => {
            lemma_mark_is_read_back(r0, k);
            assert(reads(r0.advanced(), text.drop_first()));
            assert(text.drop_first()[0] == '>');
            assert(behind(r0, 2) == behind(r0.advanced(), 1));
            assert(behind(r0.advanced(), 1) == behind(r0.advanced().advanced(), 0));
            lemma_one_token(r, k, nb, text, KindView::Arrow, 2);
        },
        Piece::Tokens(n) => {
            lemma_marking_is_read_back(r0, n, k);
            lemma_one_token(r, k, nb, text, KindView::Int(n), text.len());
        },
        Piece::Star(n) => {
            lemma_mark_is_read_back(r0, k);
            assert(behind(r0, 1) == behind(r0.advanced(), 0));
            lemma_two_tokens(r, k, nb, seq!['*'], KindView::NormalArc, n, follow);
        },
        Piece::Test(n) => {
            lemma_decimal_digits(n as nat);
            lemma_mark_is_read_back(r0, k);
            assert(reads(r0.advanced(), text.drop_first()));
            assert(text.drop_first()[0] == decimal(n as nat)[0]);
            assert(behind(r0, 1) == behind(r0.advanced(), 0));
            lemma_two_tokens(r, k, nb, seq!['?'], KindView::TestArc, n, follow);
        },
        Piece::Inhibit(n) => {
            lemma_mark_is_read_back(r0, k);
            assert(reads(r0.advanced(), text.drop_first()));
            assert(text.drop_first()[0] == '-');
            assert(behind(r0, 2) == behind(r0.advanced(), 1));
            assert(behind(r0.advanced(), 1) == behind(r0.advanced().advanced(), 0));
            lemma_two_tokens(r, k, nb, seq!['?', '-'], KindView::InhibitorArc, n, follow);
        },
        Piece::Range(time) => {
            lemma_interval_is_read_back(r0, time, k);
            assert(text[0] == '[' || text[0] == ']') by {
                reveal_strlit("[");
                reveal_strlit("]");
                reveal_strlit(",");
                reveal_strlit("] ");
                reveal_strlit("[ ");
                reveal_strlit("w[ ");
            }
            lemma_one_token(
                r,
                k,
                nb,
                text,
                KindView::TimeInterval(time.start, time.end),
                (text.len() - 1) as nat,
            );
        },
        Piece::Blank => {},
    }
}

/// The text of pieces, one behind the other.
pub open spec fn text_of(pieces: Seq<Piece>) -> Seq<char>
    decreases pieces.len(),
{
    if pieces.len() == 0 {
        Seq::empty()
    } else {
        piece_text(pieces[0]) + text_of(pieces.drop_first())
    }
}

/// The tokens that pieces are read as, one behind the other.
pub open spec fn kinds_of(pieces: Seq<Piece>) -> Seq<KindView>
    decreases pieces.len(),
{
    if pieces.len() == 0 {
        Seq::empty()
    } else {
        piece_kinds(pieces[0]) + kinds_of(pieces.drop_first())
    }
}

/// The piece begins with a character that ends a word, a name or a weight.
pub open spec fn stops(p: Piece) -> bool {
    p is Blank || p is Star || p is Test || p is Inhibit || p is Line
}

/// The pieces can be written one behind the other: each can be written, and behind each
/// that needs it stands one that ends it.
pub open spec fn chained(pieces: Seq<Piece>) -> bool
    decreases pieces.len(),
{
    pieces.len() > 0 ==> piece_ok(pieces[0]) && (needs_stop(pieces[0]) ==> pieces.len() > 1 && stops(
        pieces[1],
    )) && chained(pieces.drop_first())
}

/// Where reading the pieces leads from the reader `r`, behind a token of the kind `k`
/// and before `nb` blanks: the spot behind the last token, and the blanks that stand
/// behind it.
pub open spec fn landing(r: ReaderView, k: KindView, nb: nat, pieces: Seq<Piece>) -> (Spot, nat)
    decreases pieces.len(),
{
    if pieces.len() == 0 {
        (Spot { r, k }, nb)
    } else if pieces[0] is Blank {
        landing(r, k, nb + 1, pieces.drop_first())
    } else {
        landing(
            behind(r, (nb + piece_text(pieces[0]).len() - piece_trailing(pieces[0])) as nat),
            piece_kinds(pieces[0]).last(),
            piece_trailing(pieces[0]),
            pieces.drop_first(),
        )
    }
}

/// The text of a piece that stops begins with a character that ends a word, a name or a
/// weight.
proof fn lemma_stops(p: Piece)
    requires
        stops(p),
    ensures
        piece_text(p).len() > 0,
        is_stop(piece_text(p)[0]),
{
}

/// A time range is written with a blank at its end.
proof fn lemma_range_ends_blank(time: TimeRange)
    requires
        time != always(),
        !(time.start is Infinity),
    ensures
        with_interval(time, Seq::empty()) is Ok,
        with_interval(time, Seq::empty())->Ok_0.len() > 0,
        with_interval(time, Seq::empty())->Ok_0.last() == ' ',
{
    reveal_strlit("] ");
    reveal_strlit("[ ");
    reveal_strlit("w[ ");
}

/// Pieces are read as their tokens: where blanks and then the pieces stand before the
/// reader, the tokens of the pieces come next, and reading them leads to where the
/// pieces end.
pub proof fn lemma_pieces(r: ReaderView, k: KindView, nb: nat, pieces: Seq<Piece>, follow: Seq<char>)
    requires
        reads(r, spaces(nb) + text_of(pieces) + follow),
        r.offset <= r.bytes.len(),
        chained(pieces),
    ensures
        stream(Spot { r, k }, kinds_of(pieces)),
        skip(Spot { r, k }, kinds_of(pieces).len()) == landing(r, k, nb, pieces).0,
        reads(landing(r, k, nb, pieces).0.r, spaces(landing(r, k, nb, pieces).1) + follow),
        landing(r, k, nb, pieces).0.r.bytes == r.bytes,
        landing(r, k, nb, pieces).0.r.offset <= r.bytes.len(),
        landing(r, k, nb, pieces).1 <= nb + text_of(pieces).len(),
        landing(r, k, nb, pieces).0.r == behind(
            r,
            (nb + text_of(pieces).len() - landing(r, k, nb, pieces).1) as nat,
        ),
    decreases pieces.len(),
{
    let s = Spot { r, k };
    if pieces.len() == 0 {
        assert(spaces(nb) + text_of(pieces) + follow =~= spaces(nb) + follow);
        reveal_with_fuel(stream, 1);
    } else {
        let p = pieces[0];
        let rest = pieces.drop_first();
        let tail = text_of(rest);
        let text = piece_text(p);
        let whole = spaces(nb) + text_of(pieces) + follow;
        if p is Blank {
            assert(whole =~= spaces(nb + 1) + tail + follow);
            lemma_pieces(r, k, nb + 1, rest, follow);
            assert(kinds_of(pieces) =~= kinds_of(rest));
        } else {
            assert(whole =~= spaces(nb) + text + (tail + follow));
            if needs_stop(p) {
                lemma_stops(rest[0]);
                assert(tail =~= piece_text(rest[0]) + text_of(rest.drop_first()));
                assert((tail + follow)[0] == piece_text(rest[0])[0]);
            }
            lemma_piece(r, k, nb, p, tail + follow);
            let used = (nb + text.len() - piece_trailing(p)) as nat;
            let r1 = behind(r, used);
            let k1 = piece_kinds(p).last();
            lemma_behind_offset(r, whole, used);
            assert(whole.skip(used as int) =~= spaces(piece_trailing(p)) + tail + follow) by {
                if p is Range {
                    lemma_range_ends_blank(p->Range_0);
                }
            }
            lemma_pieces(r1, k1, piece_trailing(p), rest, follow);
            lemma_stream_join(s, piece_kinds(p), kinds_of(rest));
            lemma_skip_add(s, piece_kinds(p).len(), kinds_of(rest).len());
            let end = landing(r1, k1, piece_trailing(p), rest);
            lemma_behind_add(r, used, (piece_trailing(p) + tail.len() - end.1) as nat);
            assert(text_of(pieces).len() == text.len() + tail.len());
        }
    }
}

} // verus!
