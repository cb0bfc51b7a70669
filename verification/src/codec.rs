//! The corpus text format: one matrix row per line, fields separated by a
//! comma and a space.
//!
//! Decoding splits the text on line breaks, then each line on the separator;
//! the number of lines fixes the dimension n.  A line with fewer than n
//! fields is padded with empty fields (an empty field is not a number, so
//! its cell becomes zero); a line with more than n fields is rejected as a
//! `Decode` error.  Encoding is the exact inverse on separator-free fields.

use vstd::prelude::*;

use crate::errors::ErrorKind;

verus! {

/// The line delimiter: the byte of `'\n'`.
pub open spec fn newline() -> Seq<u8> {
    seq![10u8]
}

/// The field separator: the bytes of `", "`.
pub open spec fn comma_space() -> Seq<u8> {
    seq![44u8, 32u8]
}

/// The views of a list of byte strings.
pub open spec fn byte_rows(v: Seq<Vec<u8>>) -> Seq<Seq<u8>> {
    Seq::new(v.len(), |i: int| v[i]@)
}

/// Splitting on every non-overlapping occurrence of `d`, leftmost first:
/// the list of pieces between occurrences, as `str::split` produces it.
pub open spec fn split_bytes(t: Seq<u8>, d: Seq<u8>) -> Seq<Seq<u8>>
    decreases t.len(),
{
    if t.len() < d.len() || d.len() == 0 {
        seq![t]
    } else if t.subrange(0, d.len() as int) == d {
        seq![Seq::<u8>::empty()] + split_bytes(t.skip(d.len() as int), d)
    } else {
        let rest = split_bytes(t.skip(1), d);
        seq![seq![t[0]] + rest[0]] + rest.skip(1)
    }
}

/// A split always yields at least one piece.
proof fn lemma_split_len(t: Seq<u8>, d: Seq<u8>)
    ensures
        split_bytes(t, d).len() >= 1,
    decreases t.len(),
{
    if t.len() < d.len() || d.len() == 0 {
    } else if t.subrange(0, d.len() as int) == d {
        lemma_split_len(t.skip(d.len() as int), d);
    } else {
        lemma_split_len(t.skip(1), d);
    }
}

/// The first piece of a split, extended at the front by bytes already read.
spec fn carry(cur: Seq<u8>, s: Seq<Seq<u8>>) -> Seq<Seq<u8>>
    recommends
        s.len() >= 1,
{
    seq![cur + s[0]] + s.skip(1)
}

/// Whether `d` occurs in `t` at position `pos`.
fn matches_at(t: &Vec<u8>, d: &Vec<u8>, pos: usize) -> (r: bool)
    requires
        pos + d@.len() <= t@.len(),
    ensures
        r == (t@.subrange(pos as int, pos as int + d@.len() as int) == d@),
{
    let tl = t.len();
    let mut k: usize = 0;
    while k < d.len()
        invariant
            k <= d@.len(),
            tl == t@.len(),
            pos + d@.len() <= t@.len(),
            forall|m: int| 0 <= m < k ==> t@[pos + m] == d@[m],
        decreases d@.len() - k,
    {
        if t[pos + k] != d[k] {
            proof {
                let sub = t@.subrange(pos as int, pos as int + d@.len() as int);
                assert(sub[k as int] != d@[k as int]);
            }
            return false;
        }
        k = k + 1;
    }
    proof {
        assert(t@.subrange(pos as int, pos as int + d@.len() as int) =~= d@);
    }
    true
}

/// Splits `t` on every occurrence of `d`, leftmost first.
fn split_all(t: &Vec<u8>, d: &Vec<u8>) -> (r: Vec<Vec<u8>>)
    requires
        d@.len() >= 1,
    ensures
        byte_rows(r@) == split_bytes(t@, d@),
{
    let mut pieces: Vec<Vec<u8>> = Vec::new();
    let mut cur: Vec<u8> = Vec::new();
    let mut pos: usize = 0;
    proof {
        lemma_split_len(t@, d@);
        assert(t@.skip(0) =~= t@);
        assert(byte_rows(pieces@) + carry(cur@, split_bytes(t@.skip(0), d@)) =~~= split_bytes(
            t@,
            d@,
        ));
    }
    while pos < t.len() && d.len() <= t.len() - pos
        invariant
            pos <= t@.len(),
            d@.len() >= 1,
            split_bytes(t@, d@) == byte_rows(pieces@) + carry(
                cur@,
                split_bytes(t@.skip(pos as int), d@),
            ),
        decreases t@.len() - pos,
    {
        let ghost rem = t@.skip(pos as int);
        proof {
            assert(rem.len() >= d@.len());
            assert(rem.subrange(0, d@.len() as int) =~= t@.subrange(
                pos as int,
                pos as int + d@.len() as int,
            ));
        }
        if matches_at(t, d, pos) {
            proof {
                let s = split_bytes(rem.skip(d@.len() as int), d@);
                lemma_split_len(rem.skip(d@.len() as int), d@);
                assert(split_bytes(rem, d@) == seq![Seq::<u8>::empty()] + s);
                assert(rem.skip(d@.len() as int) =~= t@.skip(pos as int + d@.len() as int));
                assert(carry(cur@, split_bytes(rem, d@)) =~~= seq![cur@] + carry(
                    Seq::<u8>::empty(),
                    s,
                ));
                assert(byte_rows((pieces@.push(cur))) =~~= byte_rows(pieces@) + seq![cur@]);
            }
            pieces.push(cur);
            cur = Vec::new();
            pos = pos + d.len();
        } else {
            proof {
                let s = split_bytes(rem.skip(1), d@);
                lemma_split_len(rem.skip(1), d@);
                assert(split_bytes(rem, d@) == seq![seq![rem[0]] + s[0]] + s.skip(1));
                assert(rem.skip(1) =~= t@.skip(pos as int + 1));
                assert(rem[0] == t@[pos as int]);
                assert(carry(cur@, split_bytes(rem, d@)) =~~= carry(cur@.push(t@[pos as int]), s));
            }
            let b = t[pos];
            cur.push(b);
            pos = pos + 1;
        }
    }
    proof {
        let rem = t@.skip(pos as int);
        assert(rem.len() < d@.len());
        assert(split_bytes(rem, d@) == seq![rem]);
        assert(carry(cur@, seq![rem]) =~~= seq![cur@ + rem]);
    }
    while pos < t.len()
        invariant
            pos <= t@.len(),
            d@.len() >= 1,
            split_bytes(t@, d@) == byte_rows(pieces@) + seq![cur@ + t@.skip(pos as int)],
        decreases t@.len() - pos,
    {
        proof {
            assert(cur@.push(t@[pos as int]) + t@.skip(pos as int + 1) =~= cur@ + t@.skip(
                pos as int,
            ));
        }
        let b = t[pos];
        cur.push(b);
        pos = pos + 1;
    }
    proof {
        assert(cur@ + t@.skip(pos as int) =~= cur@);
        assert(byte_rows((pieces@.push(cur))) =~~= byte_rows(pieces@) + seq![cur@]);
    }
    pieces.push(cur);
    pieces
}

/// The lines of a text: the pieces between line breaks.
pub open spec fn lines_of(t: Seq<u8>) -> Seq<Seq<u8>> {
    split_bytes(t, newline())
}

/// The fields of one line: the pieces between separators.
pub open spec fn fields_of(row: Seq<u8>) -> Seq<Seq<u8>> {
    split_bytes(row, comma_space())
}

/// The views of a grid of byte strings.
pub open spec fn field_grid_view(g: Seq<Vec<Vec<u8>>>) -> Seq<Seq<Seq<u8>>> {
    Seq::new(g.len(), |i: int| byte_rows(g[i]@))
}

/// A text frames as a square grid exactly when no line carries more fields
/// than there are lines.
pub open spec fn decode_ok(t: Seq<u8>) -> bool {
    forall|i: int|
        0 <= i < lines_of(t).len() ==> #[trigger] fields_of(lines_of(t)[i]).len() <= lines_of(
            t,
        ).len()
}

/// The n-by-n grid of fields of a decodable text: row i holds the fields of
/// line i, padded at the end with empty fields up to the number of lines.
pub open spec fn framed(t: Seq<u8>) -> Seq<Seq<Seq<u8>>> {
    let ls = lines_of(t);
    Seq::new(
        ls.len(),
        |i: int|
            Seq::new(
                ls.len(),
                |j: int|
                    if j < fields_of(ls[i]).len() {
                        fields_of(ls[i])[j]
                    } else {
                        Seq::<u8>::empty()
                    },
            ),
    )
}

/// Splits a matrix text into its square grid of fields.  The number of lines
/// fixes the dimension; short lines are padded with empty fields, and a line
/// with too many fields makes the whole text undecodable.
pub fn decode_fields(text: &Vec<u8>) -> (r: Result<Vec<Vec<Vec<u8>>>, ErrorKind>)
    ensures
        r is Ok <==> decode_ok(text@),
        r is Err ==> r == Err::<Vec<Vec<Vec<u8>>>, ErrorKind>(ErrorKind::Decode),
        r matches Ok(g) ==> field_grid_view(g@) == framed(text@),
{
    let nl: Vec<u8> = vec![10u8];
    let cs: Vec<u8> = vec![44u8, 32u8];
    proof {
        assert(nl@ =~= newline());
        assert(cs@ =~= comma_space());
    }
    let lines = split_all(text, &nl);
    let n = lines.len();
    let mut grid: Vec<Vec<Vec<u8>>> = Vec::new();
    let mut i: usize = 0;
    while i < n
        invariant
            byte_rows(lines@) == lines_of(text@),
            cs@ == comma_space(),
            n == lines@.len(),
            i <= n,
            grid@.len() == i,
            forall|r: int|
                0 <= r < i ==> #[trigger] fields_of(lines_of(text@)[r]).len() <= n,
            forall|r: int| 0 <= r < i ==> #[trigger] byte_rows(grid@[r]@) == framed(text@)[r],
        decreases n - i,
    {
        proof {
            assert(byte_rows(lines@)[i as int] == lines@[i as int]@);
        }
        let mut fs = split_all(&lines[i], &cs);
        if fs.len() > n {
            proof {
                assert(fields_of(lines_of(text@)[i as int]).len() > n);
                assert(!decode_ok(text@));
            }
            return Err(ErrorKind::Decode);
        }
        let ghost flen = fields_of(lines_of(text@)[i as int]).len();
        while fs.len() < n
            invariant
                cs@ == comma_space(),
                n == lines@.len(),
                i < n,
                byte_rows(lines@) == lines_of(text@),
                flen == fields_of(lines_of(text@)[i as int]).len(),
                flen <= fs@.len() <= n,
                forall|j: int|
                    0 <= j < flen ==> #[trigger] byte_rows(fs@)[j] == fields_of(
                        lines_of(text@)[i as int],
                    )[j],
                forall|j: int| flen <= j < fs@.len() ==> #[trigger] byte_rows(fs@)[j].len() == 0,
            decreases n - fs@.len(),
        {
            let empty: Vec<u8> = Vec::new();
            proof {
                assert(byte_rows(fs@.push(empty)) =~~= byte_rows(fs@).push(empty@));
            }
            fs.push(empty);
        }
        proof {
            assert(byte_rows(fs@) =~~= framed(text@)[i as int]);
            assert(field_grid_view(grid@.push(fs)) =~~= field_grid_view(grid@).push(
                byte_rows(fs@),
            ));
        }
        grid.push(fs);
        i = i + 1;
    }
    proof {
        assert(decode_ok(text@));
        assert(field_grid_view(grid@) =~~= framed(text@));
    }
    Ok(grid)
}

/// The pieces joined with `d` between each pair.
pub open spec fn join_bytes(pieces: Seq<Seq<u8>>, d: Seq<u8>) -> Seq<u8>
    decreases pieces.len(),
{
    if pieces.len() == 0 {
        Seq::empty()
    } else if pieces.len() == 1 {
        pieces[0]
    } else {
        pieces[0] + d + join_bytes(pieces.skip(1), d)
    }
}

/// Joining one more piece appends a separator and the piece.
proof fn lemma_join_push(p: Seq<Seq<u8>>, x: Seq<u8>, d: Seq<u8>)
    ensures
        p.len() == 0 ==> join_bytes(p.push(x), d) == x,
        p.len() > 0 ==> join_bytes(p.push(x), d) == join_bytes(p, d) + d + x,
    decreases p.len(),
{
    if p.len() == 0 {
        assert(join_bytes(p.push(x), d) == p.push(x)[0]);
    } else if p.len() == 1 {
        assert(p.push(x).skip(1) =~= seq![x]);
        assert(join_bytes(seq![x], d) == x);
        assert(join_bytes(p.push(x), d) == p.push(x)[0] + d + join_bytes(p.push(x).skip(1), d));
        assert(join_bytes(p, d) == p[0]);
    } else {
        assert(p.push(x).skip(1) =~= p.skip(1).push(x));
        lemma_join_push(p.skip(1), x, d);
        assert(join_bytes(p.push(x), d) == p.push(x)[0] + d + join_bytes(p.push(x).skip(1), d));
        assert(join_bytes(p.skip(1).push(x), d) == join_bytes(p.skip(1), d) + d + x);
        assert(join_bytes(p, d) == p[0] + d + join_bytes(p.skip(1), d));
        assert((p[0] + d + join_bytes(p.skip(1), d)) + d + x =~= p[0] + d + (join_bytes(
            p.skip(1),
            d,
        ) + d + x));
    }
}

/// Appends all of `add` to `out`.
pub(crate) fn push_all(out: &mut Vec<u8>, add: &Vec<u8>)
    ensures
        final(out)@ == old(out)@ + add@,
{
    let mut i: usize = 0;
    while i < add.len()
        invariant
            i <= add@.len(),
            out@ == old(out)@ + add@.take(i as int),
        decreases add@.len() - i,
    {
        proof {
            assert(old(out)@ + add@.take(i as int + 1) =~= (old(out)@ + add@.take(i as int)).push(
                add@[i as int],
            ));
        }
        let b = add[i];
        out.push(b);
        i = i + 1;
    }
    proof {
        assert(old(out)@ + add@.take(add@.len() as int) =~= old(out)@ + add@);
    }
}

/// Joins the pieces with `d` between each pair.
fn join_all(pieces: &Vec<Vec<u8>>, d: &Vec<u8>) -> (r: Vec<u8>)
    ensures
        r@ == join_bytes(byte_rows(pieces@), d@),
{
    let mut out: Vec<u8> = Vec::new();
    let mut i: usize = 0;
    proof {
        assert(byte_rows(pieces@).take(0) =~= Seq::<Seq<u8>>::empty());
    }
    while i < pieces.len()
        invariant
            i <= pieces@.len(),
            out@ == join_bytes(byte_rows(pieces@).take(i as int), d@),
        decreases pieces@.len() - i,
    {
        proof {
            lemma_join_push(byte_rows(pieces@).take(i as int), pieces@[i as int]@, d@);
            assert(byte_rows(pieces@).take(i as int + 1) =~= byte_rows(pieces@).take(
                i as int,
            ).push(pieces@[i as int]@));
        }
        if i > 0 {
            push_all(&mut out, d);
        }
        push_all(&mut out, &pieces[i]);
        i = i + 1;
    }
    proof {
        assert(byte_rows(pieces@).take(pieces@.len() as int) =~= byte_rows(pieces@));
    }
    out
}

/// A grid of fields serialized back to matrix text: fields joined with the
/// separator, lines joined with line breaks, no trailing terminator.
pub open spec fn encoded(g: Seq<Seq<Seq<u8>>>) -> Seq<u8> {
    join_bytes(Seq::new(g.len(), |i: int| join_bytes(g[i], comma_space())), newline())
}

/// Serializes a grid of fields to matrix text.
pub fn encode_grid(g: &Vec<Vec<Vec<u8>>>) -> (r: Vec<u8>)
    ensures
        r@ == encoded(field_grid_view(g@)),
{
    let cs: Vec<u8> = vec![44u8, 32u8];
    let nl: Vec<u8> = vec![10u8];
    proof {
        assert(nl@ =~= newline());
        assert(cs@ =~= comma_space());
    }
    let mut joined: Vec<Vec<u8>> = Vec::new();
    let mut i: usize = 0;
    while i < g.len()
        invariant
            i <= g@.len(),
            cs@ == comma_space(),
            nl@ == newline(),
            joined@.len() == i,
            forall|r: int|
                0 <= r < i ==> #[trigger] byte_rows(joined@)[r] == join_bytes(
                    field_grid_view(g@)[r],
                    comma_space(),
                ),
        decreases g@.len() - i,
    {
        let line = join_all(&g[i], &cs);
        proof {
            assert(byte_rows(g@[i as int]@) == field_grid_view(g@)[i as int]);
            assert(byte_rows(joined@.push(line)) =~~= byte_rows(joined@).push(line@));
        }
        joined.push(line);
        i = i + 1;
    }
    proof {
        assert(byte_rows(joined@) =~~= Seq::new(
            g@.len(),
            |i: int| join_bytes(field_grid_view(g@)[i], comma_space()),
        ));
        assert(Seq::new(g@.len(), |i: int| join_bytes(field_grid_view(g@)[i], comma_space()))
            =~~= Seq::new(
            field_grid_view(g@).len(),
            |i: int| join_bytes(field_grid_view(g@)[i], comma_space()),
        ));
    }
    join_all(&joined, &nl)
}

/// A corpus file's text: the encoded grid followed by one trailing line
/// terminator, as the corpus producer writes it.  Splitting such a text
/// naively yields one extra, empty line -- and so a grid one larger than
/// intended; that behavior is kept, not corrected, and `matrix_text` is the
/// exact producer-side counterpart.
pub open spec fn corpus_text(g: Seq<Seq<Seq<u8>>>) -> Seq<u8> {
    if g.len() == 0 {
        Seq::empty()
    } else {
        encoded(g) + newline()
    }
}

/// Serializes a grid as a corpus file's text, trailing terminator included.
pub fn matrix_text(g: &Vec<Vec<Vec<u8>>>) -> (r: Vec<u8>)
    ensures
        r@ == corpus_text(field_grid_view(g@)),
{
    let mut out = encode_grid(g);
    if g.len() > 0 {
        proof {
            assert(out@.push(10u8) =~= out@ + newline());
        }
        out.push(10u8);
    }
    out
}

/// No byte of the piece occurs in `d`.
pub open spec fn avoids(piece: Seq<u8>, d: Seq<u8>) -> bool {
    forall|b: int| 0 <= b < piece.len() ==> !d.contains(#[trigger] piece[b])
}

/// A delimiter-free text splits as a single piece.
proof fn lemma_split_whole(t: Seq<u8>, d: Seq<u8>)
    requires
        d.len() >= 1,
        avoids(t, d),
    ensures
        split_bytes(t, d) == seq![t],
    decreases t.len(),
{
    if t.len() < d.len() {
    } else if t.subrange(0, d.len() as int) == d {
        assert(t[0] == d[0]);
        assert(d.contains(t[0]));
    } else {
        assert(avoids(t.skip(1), d)) by {
            assert(forall|b: int| 0 <= b < t.skip(1).len() ==> t.skip(1)[b] == t[b + 1]);
        }
        lemma_split_whole(t.skip(1), d);
        assert(seq![seq![t[0]] + t.skip(1)] =~~= seq![t]);
    }
}

/// Bytes that avoid the delimiter pass through a split untouched: splitting
/// `x + t` carries `x` into the first piece of `t`'s split.
proof fn lemma_split_prefix(x: Seq<u8>, t: Seq<u8>, d: Seq<u8>)
    requires
        d.len() >= 1,
        avoids(x, d),
    ensures
        split_bytes(x + t, d) == carry(x, split_bytes(t, d)),
    decreases x.len(),
{
    lemma_split_len(t, d);
    if x.len() == 0 {
        assert(x + t =~= t);
        assert(carry(x, split_bytes(t, d)) =~~= split_bytes(t, d));
    } else {
        let w = x + t;
        if w.len() < d.len() {
            assert(t.len() < d.len());
            assert(carry(x, seq![t]) =~~= seq![w]);
        } else {
            if w.subrange(0, d.len() as int) == d {
                assert(w[0] == d[0]);
                assert(d.contains(x[0]));
                assert(false);
            }
            let rest = split_bytes(w.skip(1), d);
            assert(w.skip(1) =~= x.skip(1) + t);
            assert(avoids(x.skip(1), d)) by {
                assert(forall|b: int| 0 <= b < x.skip(1).len() ==> x.skip(1)[b] == x[b + 1]);
            }
            lemma_split_prefix(x.skip(1), t, d);
            assert(split_bytes(w, d) == seq![seq![w[0]] + rest[0]] + rest.skip(1));
            assert(seq![seq![w[0]] + carry(x.skip(1), split_bytes(t, d))[0]] + carry(
                x.skip(1),
                split_bytes(t, d),
            ).skip(1) =~~= carry(x, split_bytes(t, d)));
        }
    }
}

/// Joining delimiter-free pieces and splitting again gives the pieces back.
pub proof fn lemma_split_join(pieces: Seq<Seq<u8>>, d: Seq<u8>)
    requires
        pieces.len() >= 1,
        d.len() >= 1,
        forall|i: int| 0 <= i < pieces.len() ==> avoids(#[trigger] pieces[i], d),
    ensures
        split_bytes(join_bytes(pieces, d), d) == pieces,
    decreases pieces.len(),
{
    if pieces.len() == 1 {
        lemma_split_whole(pieces[0], d);
        assert(seq![pieces[0]] =~~= pieces);
    } else {
        let jr = join_bytes(pieces.skip(1), d);
        assert(join_bytes(pieces, d) == pieces[0] + d + jr);
        assert(pieces[0] + d + jr =~= pieces[0] + (d + jr));
        lemma_split_prefix(pieces[0], d + jr, d);
        let w = d + jr;
        assert(w.subrange(0, d.len() as int) =~= d);
        assert(w.skip(d.len() as int) =~= jr);
        assert(split_bytes(w, d) == seq![Seq::<u8>::empty()] + split_bytes(jr, d));
        assert(forall|i: int|
            0 <= i < pieces.skip(1).len() ==> pieces.skip(1)[i] == pieces[i + 1]);
        lemma_split_join(pieces.skip(1), d);
        assert(carry(pieces[0], seq![Seq::<u8>::empty()] + pieces.skip(1)) =~~= pieces);
    }
}

/// A join of pieces that avoid a byte set, with a separator that avoids it
/// too, avoids it as a whole.
proof fn lemma_join_avoids(p: Seq<Seq<u8>>, d: Seq<u8>, e: Seq<u8>)
    requires
        forall|i: int| 0 <= i < p.len() ==> avoids(#[trigger] p[i], e),
        avoids(d, e),
    ensures
        avoids(join_bytes(p, d), e),
    decreases p.len(),
{
    if p.len() <= 1 {
    } else {
        assert(forall|i: int| 0 <= i < p.skip(1).len() ==> p.skip(1)[i] == p[i + 1]);
        lemma_join_avoids(p.skip(1), d, e);
        let w = p[0] + d + join_bytes(p.skip(1), d);
        assert forall|b: int| 0 <= b < w.len() implies !e.contains(w[b]) by {
            if b < p[0].len() {
                assert(w[b] == p[0][b]);
            } else if b < p[0].len() + d.len() {
                assert(w[b] == d[b - p[0].len()]);
            } else {
                assert(w[b] == join_bytes(p.skip(1), d)[b - p[0].len() - d.len()]);
            }
        }
    }
}

/// Decoding an encoded square grid gives the grid back, field for field,
/// whenever no field holds a line break, a comma or a space -- which is true
/// of every numeral a matrix entry prints as.
pub proof fn lemma_round_trip(g: Seq<Seq<Seq<u8>>>)
    requires
        g.len() >= 1,
        forall|i: int| 0 <= i < g.len() ==> #[trigger] g[i].len() == g.len(),
        forall|i: int, j: int, b: int|
            0 <= i < g.len() && 0 <= j < g[i].len() && 0 <= b < g[i][j].len() ==> #[trigger] g[i][j][b]
                != 10u8 && g[i][j][b] != 44u8 && g[i][j][b] != 32u8,
    ensures
        decode_ok(encoded(g)),
        framed(encoded(g)) == g,
{
    let cs = comma_space();
    let nl = newline();
    assert(forall|x: u8| nl.contains(x) ==> x == nl[0]);
    assert(forall|x: u8| cs.contains(x) ==> x == cs[0] || x == cs[1]);
    let joined = Seq::new(g.len(), |i: int| join_bytes(g[i], cs));
    assert forall|i: int| 0 <= i < joined.len() implies avoids(#[trigger] joined[i], nl) by {
        assert(forall|j: int| 0 <= j < g[i].len() ==> avoids(#[trigger] g[i][j], nl));
        assert(avoids(cs, nl));
        lemma_join_avoids(g[i], cs, nl);
    }
    lemma_split_join(joined, nl);
    assert(lines_of(encoded(g)) == joined);
    assert forall|i: int| 0 <= i < g.len() implies fields_of(joined[i]) == g[i] by {
        assert(forall|j: int| 0 <= j < g[i].len() ==> avoids(#[trigger] g[i][j], cs));
        lemma_split_join(g[i], cs);
    }
    assert(decode_ok(encoded(g)));
    assert(framed(encoded(g)) =~~= g);
}

} // verus!
