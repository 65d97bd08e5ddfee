//! Taking text apart at separators and into lines.

use vstd::prelude::*;
use vstd::string::StringSliceAdditionalSpecFns;
use vstd::utf8::valid_utf8;

verus! {

/// The texts that each of the character vectors holds.
pub open spec fn texts_of(pieces: Seq<Vec<char>>) -> Seq<Seq<char>> {
    Seq::new(pieces.len(), |i: int| pieces[i]@)
}

/// The pieces into which the separator cuts a text: what stands before the first separator,
/// between each two, and after the last. There is one piece more than there are separators, and
/// a piece is empty where nothing stands between two of them.
pub open spec fn split<T>(s: Seq<T>, sep: T) -> Seq<Seq<T>>
    decreases s.len(),
{
    if s.len() == 0 {
        seq![Seq::empty()]
    } else if s.last() == sep {
        split(s.drop_last(), sep).push(Seq::empty())
    } else {
        let init = split(s.drop_last(), sep);
        init.drop_last().push(init.last().push(s.last()))
    }
}

/// A split always has a piece.
pub proof fn lemma_split_nonempty<T>(s: Seq<T>, sep: T)
    ensures
        split(s, sep).len() > 0,
    decreases s.len(),
{
    if s.len() > 0 {
        lemma_split_nonempty(s.drop_last(), sep);
    }
}

/// A text without separator is its own single piece.
pub proof fn lemma_split_none<T>(s: Seq<T>, sep: T)
    requires
        !s.contains(sep),
    ensures
        split(s, sep) == seq![s],
    decreases s.len(),
{
    if s.len() == 0 {
        assert(s =~= Seq::<T>::empty());
    } else {
        let init = s.drop_last();
        assert(s.contains(s.last()));
        assert forall|i: int| 0 <= i < init.len() implies init[i] != sep by {
            assert(s.contains(s[i]));
        }
        if init.contains(sep) {
            let i = choose|i: int| 0 <= i < init.len() && init[i] == sep;
            assert(false);
        }
        lemma_split_none(init, sep);
        let one = seq![init];
        assert(one.len() == 1 && one[0] == init);
        assert(one.drop_last() =~= Seq::<Seq<T>>::empty());
        assert(init.push(s.last()) =~= s);
        assert(one.drop_last().push(one.last().push(s.last())) =~= seq![s]);
    }
}

/// What stands before the first separator is the first piece, and the pieces of what follows
/// that separator are the other pieces.
pub proof fn lemma_split_front<T>(a: Seq<T>, sep: T, b: Seq<T>)
    requires
        !a.contains(sep),
    ensures
        split(a + seq![sep] + b, sep) == seq![a] + split(b, sep),
    decreases b.len(),
{
    let whole = a + seq![sep] + b;
    if b.len() == 0 {
        assert(whole.drop_last() =~= a);
        lemma_split_none(a, sep);
        assert(seq![a].push(Seq::<T>::empty()) =~= seq![a] + split(b, sep));
    } else {
        let short = b.drop_last();
        assert(whole.drop_last() =~= a + seq![sep] + short);
        assert(whole.last() == b.last());
        lemma_split_front(a, sep, short);
        lemma_split_nonempty(short, sep);
        let rest = split(short, sep);
        let init = seq![a] + rest;
        if b.last() == sep {
            assert(init.push(Seq::<T>::empty()) =~= seq![a] + rest.push(Seq::<T>::empty()));
        } else {
            assert(init.last() == rest.last());
            assert(init.drop_last() =~= seq![a] + rest.drop_last());
            assert(init.drop_last().push(init.last().push(b.last())) =~= seq![a]
                + rest.drop_last().push(rest.last().push(b.last())));
        }
    }
}

/// The first piece of a split is what stands before the first separator, or the whole text
/// where there is no separator.
pub proof fn lemma_split_first<T>(s: Seq<T>, sep: T)
    ensures
        split(s, sep).len() > 0,
        split(s, sep)[0].len() <= s.len(),
        split(s, sep)[0] == s.take(split(s, sep)[0].len() as int),
        !split(s, sep)[0].contains(sep),
        split(s, sep).len() == 1 ==> split(s, sep)[0] == s,
        split(s, sep).len() > 1 ==> split(s, sep)[0].len() < s.len() && s[split(
            s,
            sep,
        )[0].len() as int] == sep,
    decreases s.len(),
{
    if s.len() == 0 {
        assert(s.take(0) =~= Seq::<T>::empty());
    } else {
        let init = s.drop_last();
        let x = s.last();
        lemma_split_first(init, sep);
        let pieces = split(init, sep);
        let first = pieces[0];
        if x == sep {
            assert(split(s, sep)[0] == first);
            assert(s.take(first.len() as int) =~= init.take(first.len() as int));
            if pieces.len() == 1 {
                assert(s[init.len() as int] == sep);
            } else {
                assert(s[first.len() as int] == init[first.len() as int]);
            }
        } else if pieces.len() == 1 {
            assert(split(s, sep)[0] == first.push(x));
            assert(first.push(x) =~= s);
            assert(s.take(s.len() as int) =~= s);
            if s.contains(sep) {
                let i = choose|i: int| 0 <= i < s.len() && s[i] == sep;
                assert(init[i] == sep);
                assert(init.contains(sep));
            }
        } else {
            assert(split(s, sep)[0] == first);
            assert(s.take(first.len() as int) =~= init.take(first.len() as int));
            assert(s[first.len() as int] == init[first.len() as int]);
        }
    }
}

/// The line without the item `cr` at its end, if it ends with one.
pub open spec fn without_last<T>(line: Seq<T>, cr: T) -> Seq<T> {
    if line.len() > 0 && line.last() == cr {
        line.drop_last()
    } else {
        line
    }
}

/// The lines of a text in which `lf` is the line feed and `cr` the carriage return. A line ends
/// with a line feed, or with a carriage return and a line feed, neither of which belongs to it;
/// the last line needs no such ending, and after a last line feed no further line follows.
pub open spec fn lines_with<T>(s: Seq<T>, lf: T, cr: T) -> Seq<Seq<T>> {
    let pieces = split(s, lf);
    let ended = Seq::new((pieces.len() - 1) as nat, |i: int| without_last(pieces[i], cr));
    if pieces.last().len() == 0 {
        ended
    } else {
        ended.push(pieces.last())
    }
}

/// The line without the carriage return that ends it, if one does.
pub open spec fn without_cr(line: Seq<char>) -> Seq<char> {
    without_last(line, '\r')
}

/// The lines of a text of characters.
pub open spec fn lines(s: Seq<char>) -> Seq<Seq<char>> {
    lines_with(s, '\n', '\r')
}

/// The lines of a text in UTF-8.
pub open spec fn byte_lines(s: Seq<u8>) -> Seq<Seq<u8>> {
    lines_with(s, 0x0au8, 0x0du8)
}

/// Cuts a text at each separator.
pub fn split_chars(s: &[char], sep: char) -> (pieces: Vec<Vec<char>>)
    ensures
        texts_of(pieces@) == split(s@, sep),
{
    let mut done: Vec<Vec<char>> = Vec::new();
    let mut current: Vec<char> = Vec::new();
    let mut k: usize = 0;
    proof {
        assert(s@.take(0) =~= Seq::<char>::empty());
        assert(texts_of(done@).push(current@) =~= split(s@.take(0), sep));
    }
    while k < s.len()
        invariant
            k <= s.len(),
            texts_of(done@).push(current@) == split(s@.take(k as int), sep),
        decreases s.len() - k,
    {
        let c = s[k];
        let ghost before = texts_of(done@);
        let ghost piece = current@;
        proof {
            assert(s@.take(k + 1).drop_last() =~= s@.take(k as int));
            assert(s@.take(k + 1).last() == c);
            assert(before.push(piece).drop_last() =~= before);
        }
        if c == sep {
            done.push(current);
            current = Vec::new();
            proof {
                assert(texts_of(done@) =~= before.push(piece));
            }
        } else {
            current.push(c);
        }
        k += 1;
    }
    let ghost before = texts_of(done@);
    done.push(current);
    proof {
        assert(s@.take(k as int) =~= s@);
        assert(texts_of(done@) =~= before.push(current@));
    }
    done
}

/// Takes a text apart into its lines.
pub fn lines_of(s: &[char]) -> (r: Vec<Vec<char>>)
    ensures
        texts_of(r@) == lines(s@),
{
    let mut pieces = split_chars(s, '\n');
    proof {
        lemma_split_nonempty(s@, '\n');
    }
    let ghost all = texts_of(pieces@);
    let last = pieces.pop().unwrap();
    let mut out: Vec<Vec<char>> = Vec::new();
    let mut i: usize = 0;
    proof {
        assert(last@ == all.last());
        assert(texts_of(out@) =~= Seq::new(0, |i: int| without_cr(all[i])));
    }
    while i < pieces.len()
        invariant
            i <= pieces.len(),
            pieces@.len() == all.len() - 1,
            forall|k: int| 0 <= k < pieces@.len() ==> (#[trigger] pieces@[k])@ == all[k],
            texts_of(out@) == Seq::new(i as nat, |k: int| without_cr(all[k])),
        decreases pieces.len() - i,
    {
        let ghost before = texts_of(out@);
        let piece = &pieces[i];
        let n = piece.len();
        let mut line: Vec<char> = Vec::new();
        let keep = if n > 0 && piece[n - 1] == '\r' {
            n - 1
        } else {
            n
        };
        let mut m: usize = 0;
        while m < keep
            invariant
                m <= keep <= n,
                n == piece@.len(),
                line@ == piece@.take(m as int),
            decreases keep - m,
        {
            line.push(piece[m]);
            assert(piece@.take(m + 1) =~= piece@.take(m as int).push(piece@[m as int]));
            m += 1;
        }
        proof {
            assert(piece@.take(keep as int) =~= without_cr(piece@));
        }
        out.push(line);
        proof {
            assert(texts_of(out@) =~= before.push(without_cr(all[i as int])));
            assert(texts_of(out@) =~= Seq::new((i + 1) as nat, |k: int| without_cr(all[k])));
        }
        i += 1;
    }
    if last.len() > 0 {
        let ghost before = texts_of(out@);
        out.push(last);
        proof {
            assert(texts_of(out@) =~= before.push(all.last()));
        }
    }
    out
}

/// The bytes of each of the string slices.
pub open spec fn bytes_of(pieces: Seq<&str>) -> Seq<Seq<u8>> {
    Seq::new(pieces.len(), |i: int| pieces[i].spec_bytes())
}

/// In valid UTF-8 an ASCII byte stands at the start of a character, and so does what follows
/// it.
pub proof fn lemma_ascii_boundary(bytes: Seq<u8>, at: int)
    requires
        valid_utf8(bytes),
        0 <= at < bytes.len(),
        bytes[at] < 0x80,
    ensures
        vstd::utf8::is_char_boundary(bytes, at),
        vstd::utf8::is_char_boundary(bytes.skip(at), 1),
        valid_utf8(bytes.take(at)),
        valid_utf8(bytes.skip(at)),
{
    let b = bytes[at];
    assert(b & 0xc0 != 0x80 && b & 0x80 == 0) by (bit_vector)
        requires
            b < 0x80,
    ;
    vstd::utf8::is_char_boundary_iff_not_is_continuation_byte(bytes, at);
    vstd::utf8::valid_utf8_split(bytes, at);
    assert(bytes.take(at) =~= bytes.subrange(0, at));
    assert(bytes.skip(at) =~= bytes.subrange(at, bytes.len() as int));
    let tail = bytes.skip(at);
    assert(tail[0] == b);
    vstd::utf8::is_char_boundary_start_end_of_seq(vstd::utf8::pop_first_scalar(tail));
    reveal_with_fuel(vstd::utf8::is_char_boundary, 2);
}

/// Cuts a string slice at each separator, an ASCII byte: the pieces are slices of it.
pub fn split_str<'a>(text: &'a str, sep: u8) -> (pieces: Vec<&'a str>)
    requires
        sep < 0x80,
    ensures
        bytes_of(pieces@) == split(text.spec_bytes(), sep),
{
    let ghost whole = text.spec_bytes();
    let mut pieces: Vec<&'a str> = Vec::new();
    let mut rest: &'a str = text;
    proof {
        assert(bytes_of(pieces@) + split(rest.spec_bytes(), sep) =~= split(whole, sep));
    }
    loop
        invariant_except_break
            sep < 0x80,
            bytes_of(pieces@) + split(rest.spec_bytes(), sep) == split(whole, sep),
        ensures
            bytes_of(pieces@) == split(whole, sep),
        decreases rest.spec_bytes().len(),
    {
        let bytes = rest.as_bytes();
        let mut at: usize = 0;
        while at < bytes.len() && bytes[at] != sep
            invariant
                at <= bytes.len(),
                forall|k: int| 0 <= k < at ==> bytes@[k] != sep,
            decreases bytes.len() - at,
        {
            at += 1;
        }
        let ghost done = bytes_of(pieces@);
        if at == bytes.len() {
            proof {
                if bytes@.contains(sep) {
                    let k = choose|k: int| 0 <= k < bytes@.len() && bytes@[k] == sep;
                    assert(false);
                }
                lemma_split_none(bytes@, sep);
            }
            pieces.push(rest);
            proof {
                assert(bytes_of(pieces@) =~= done.push(bytes@));
                assert(done.push(bytes@) =~= done + seq![bytes@]);
            }
            break;
        }
        proof {
            vstd::utf8::encode_utf8_valid_utf8(rest@);
            lemma_ascii_boundary(bytes@, at as int);
        }
        let (head, tail) = rest.split_at(at);
        proof {
            vstd::utf8::encode_utf8_valid_utf8(tail@);
            assert(tail.spec_bytes() =~= bytes@.skip(at as int));
        }
        let (_, after) = tail.split_at(1);
        proof {
            let a = head.spec_bytes();
            let b = after.spec_bytes();
            assert(a =~= bytes@.take(at as int));
            assert(bytes@ =~= a + seq![sep] + b);
            if a.contains(sep) {
                let k = choose|k: int| 0 <= k < a.len() && a[k] == sep;
                assert(bytes@[k] == sep);
            }
            lemma_split_front(a, sep, b);
        }
        pieces.push(head);
        proof {
            assert(bytes_of(pieces@) =~= done.push(head.spec_bytes()));
            assert(done.push(head.spec_bytes()) + split(after.spec_bytes(), sep) =~= done + (
            seq![head.spec_bytes()] + split(after.spec_bytes(), sep)));
        }
        rest = after;
    }
    pieces
}

/// Takes a string slice apart into its lines: the lines are slices of it.
pub fn lines_str<'a>(text: &'a str) -> (r: Vec<&'a str>)
    ensures
        bytes_of(r@) == byte_lines(text.spec_bytes()),
{
    let mut pieces = split_str(text, 0x0a);
    proof {
        lemma_split_nonempty(text.spec_bytes(), 0x0au8);
    }
    let ghost all = bytes_of(pieces@);
    let last = pieces.pop().unwrap();
    let mut out: Vec<&'a str> = Vec::new();
    let mut i: usize = 0;
    proof {
        assert(last.spec_bytes() == all.last());
        assert(bytes_of(out@) =~= Seq::new(0, |i: int| without_last(all[i], 0x0du8)));
    }
    while i < pieces.len()
        invariant
            i <= pieces.len(),
            pieces@.len() == all.len() - 1,
            forall|k: int|
                0 <= k < pieces@.len() ==> (#[trigger] pieces@[k]).spec_bytes() == all[k],
            bytes_of(out@) == Seq::new(i as nat, |k: int| without_last(all[k], 0x0du8)),
        decreases pieces.len() - i,
    {
        let ghost before = bytes_of(out@);
        let piece: &'a str = pieces[i];
        let bytes = piece.as_bytes();
        let n = bytes.len();
        let line: &'a str = if n > 0 && bytes[n - 1] == 0x0d {
            proof {
                vstd::utf8::encode_utf8_valid_utf8(piece@);
                lemma_ascii_boundary(bytes@, n - 1);
            }
            let (head, _) = piece.split_at(n - 1);
            assert(head.spec_bytes() =~= bytes@.drop_last());
            head
        } else {
            piece
        };
        out.push(line);
        proof {
            assert(bytes_of(out@) =~= before.push(without_last(all[i as int], 0x0du8)));
            assert(bytes_of(out@) =~= Seq::new(
                (i + 1) as nat,
                |k: int| without_last(all[k], 0x0du8),
            ));
        }
        i += 1;
    }
    if last.as_bytes().len() > 0 {
        let ghost before = bytes_of(out@);
        out.push(last);
        proof {
            assert(bytes_of(out@) =~= before.push(all.last()));
        }
    }
    out
}

} // verus!
