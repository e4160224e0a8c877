//! Palette loading: a textual palette is one color per line, each non-empty
//! line exactly six hexadecimal characters encoding red, green and blue at
//! 8-bit depth; every channel is then rescaled to 16-bit depth by multiplying
//! by 256 (so the 8-bit range 0..=255 maps onto 0..=65280, not the full
//! 16-bit span).  Without a palette text, a built-in five-entry default is
//! used: black, white, red, green and blue at full 16-bit intensity.

use vstd::prelude::*;

use crate::color::{in_range16, lemma_views_push, views, Color, Rgb, MAX16};

verus! {

/// Palette loading failures: a non-empty line that is not six hex digits, or
/// a text with no colors in it at all.
#[derive(Clone, Copy, Debug, PartialEq, Eq, Structural)]
pub enum PaletteError {
    BadLine,
    EmptyPalette,
}

/// An ASCII hexadecimal digit, either case.
pub open spec fn is_hex_digit(c: u8) -> bool {
    (48 <= c <= 57) || (97 <= c <= 102) || (65 <= c <= 70)
}

/// The value of an ASCII hexadecimal digit.
pub open spec fn hex_val(c: u8) -> int {
    if 48 <= c <= 57 {
        c - 48
    } else if 97 <= c <= 102 {
        c - 87
    } else if 65 <= c <= 70 {
        c - 55
    } else {
        0
    }
}

/// The text split at every newline byte; always at least one (possibly
/// empty) line, and a trailing newline opens a final empty line.
pub open spec fn lines_of(t: Seq<u8>) -> Seq<Seq<u8>>
    decreases t.len(),
{
    if t.len() == 0 {
        seq![Seq::empty()]
    } else if t.last() == 10 {
        lines_of(t.drop_last()).push(Seq::empty())
    } else {
        let ls = lines_of(t.drop_last());
        ls.update(ls.len() - 1, ls.last().push(t.last()))
    }
}

/// A line the loader accepts: empty (skipped), or exactly six hex digits.
pub open spec fn good_line(l: Seq<u8>) -> bool {
    l.len() == 0 || (l.len() == 6 && forall|k: int| 0 <= k < l.len() ==> is_hex_digit(#[trigger] l[k]))
}

/// Every line of the split text is acceptable.
pub open spec fn all_good(ls: Seq<Seq<u8>>) -> bool {
    forall|k: int| 0 <= k < ls.len() ==> good_line(#[trigger] ls[k])
}

/// The color a six-hex-digit line denotes, channels rescaled by 256.
pub open spec fn line_color(l: Seq<u8>) -> Rgb {
    Rgb {
        r: (hex_val(l[0]) * 16 + hex_val(l[1])) * 256,
        g: (hex_val(l[2]) * 16 + hex_val(l[3])) * 256,
        b: (hex_val(l[4]) * 16 + hex_val(l[5])) * 256,
    }
}

/// The colors of the non-empty lines, in order.
pub open spec fn palette_of(ls: Seq<Seq<u8>>) -> Seq<Rgb>
    decreases ls.len(),
{
    if ls.len() == 0 {
        Seq::empty()
    } else if ls.last().len() == 0 {
        palette_of(ls.drop_last())
    } else {
        palette_of(ls.drop_last()).push(line_color(ls.last()))
    }
}

#[verifier::external_type_specification]
#[verifier::external_body]
pub struct ExFromHexError(hex::FromHexError);

/// Relies on hex::decode: it succeeds exactly on inputs of even length whose
/// bytes are all ASCII hex digits (either case), and then returns one byte
/// per digit pair, high digit first.
#[verifier::external_body]
fn hex_decode_line(line: &Vec<u8>) -> (res: Result<Vec<u8>, hex::FromHexError>)
    ensures
        res is Ok <==> (line@.len() % 2 == 0 && forall|k: int|
            0 <= k < line@.len() ==> is_hex_digit(#[trigger] line@[k])),
        res matches Ok(v) ==> {
            &&& v@.len() == line@.len() / 2
            &&& forall|k: int|
                0 <= k < v@.len() ==> #[trigger] v@[k] as int == hex_val(line@[2 * k]) * 16
                    + hex_val(line@[2 * k + 1])
        },
{
    hex::decode(line.as_slice())
}

/// The built-in palette: black, white, red, green, blue.
pub open spec fn default_palette_spec() -> Seq<Rgb> {
    seq![
        Rgb { r: 0, g: 0, b: 0 },
        Rgb { r: 65535, g: 65535, b: 65535 },
        Rgb { r: 65535, g: 0, b: 0 },
        Rgb { r: 0, g: 65535, b: 0 },
        Rgb { r: 0, g: 0, b: 65535 },
    ]
}

/// The palette used when no palette text is supplied.
pub fn default_palette() -> (res: Vec<Color>)
    ensures
        views(res@) == default_palette_spec(),
        res@.len() == 5,
        forall|k: int| 0 <= k < res@.len() ==> in_range16(#[trigger] res@[k]@),
{
    let mut res: Vec<Color> = Vec::new();
    res.push(Color { r: 0, g: 0, b: 0 });
    res.push(Color { r: MAX16, g: MAX16, b: MAX16 });
    res.push(Color { r: MAX16, g: 0, b: 0 });
    res.push(Color { r: 0, g: MAX16, b: 0 });
    res.push(Color { r: 0, g: 0, b: MAX16 });
    proof {
        assert(views(res@) =~= default_palette_spec());
    }
    res
}

/// Parses a palette text: the colors of its non-empty lines, in order.
///
/// Fails with `BadLine` when some non-empty line is not exactly six hex
/// digits, and with `EmptyPalette` when the text holds no color at all.
pub fn parse_palette(text: &Vec<u8>) -> (res: Result<Vec<Color>, PaletteError>)
    ensures
        res is Ok <==> (all_good(lines_of(text@)) && palette_of(lines_of(text@)).len() >= 1),
        res matches Ok(v) ==> {
            &&& views(v@) == palette_of(lines_of(text@))
            &&& v@.len() >= 1
            &&& forall|k: int| 0 <= k < v@.len() ==> in_range16(#[trigger] v@[k]@)
        },
        res == Err::<Vec<Color>, PaletteError>(PaletteError::BadLine) <==> !all_good(
            lines_of(text@),
        ),
        res == Err::<Vec<Color>, PaletteError>(PaletteError::EmptyPalette) <==> (all_good(
            lines_of(text@),
        ) && palette_of(lines_of(text@)).len() == 0),
{
    let mut done: Vec<Color> = Vec::new();
    let mut cur: Vec<u8> = Vec::new();
    let mut bad = false;
    let mut idx: usize = 0;
    let total: usize = text.len();
    while idx < total
        invariant
            total == text@.len(),
            0 <= idx <= total,
            lines_of(text@.take(idx as int)).len() >= 1,
            lines_of(text@.take(idx as int)).last() == cur@,
            bad <==> exists|k: int|
                0 <= k < lines_of(text@.take(idx as int)).len() - 1 && !good_line(
                    #[trigger] lines_of(text@.take(idx as int))[k],
                ),
            !bad ==> views(done@) == palette_of(lines_of(text@.take(idx as int)).drop_last()),
            forall|j: int| 0 <= j < done@.len() ==> in_range16(#[trigger] done@[j]@),
        decreases total - idx,
    {
        let ghost tpre = text@.take(idx as int);
        let ghost lpre = lines_of(tpre);
        let ghost closed = cur@;
        let ghost was_bad = bad;
        let c = text[idx];
        proof {
            assert(text@.take(idx + 1) =~= tpre.push(c));
            assert(tpre.push(c).drop_last() =~= tpre);
        }
        if c == 10 {
            proof {
                assert(lines_of(text@.take(idx + 1)) == lpre.push(Seq::empty()));
                assert(lpre.push(Seq::empty()).drop_last() =~= lpre);
            }
            if !bad {
                if cur.len() > 0 {
                    let decoded = hex_decode_line(&cur);
                    match decoded {
                        Ok(v) => {
                            if v.len() == 3 {
                                let col = Color {
                                    r: (v[0] as i64) * 256,
                                    g: (v[1] as i64) * 256,
                                    b: (v[2] as i64) * 256,
                                };
                                proof {
                                    assert(cur@.len() == 6);
                                    assert(good_line(closed));
                                    assert(col@ == line_color(closed));
                                    lemma_views_push(done@, col);
                                }
                                done.push(col);
                            } else {
                                bad = true;
                                proof {
                                    assert(!good_line(closed));
                                }
                            }
                        },
                        Err(_) => {
                            bad = true;
                            proof {
                                assert(!good_line(closed));
                            }
                        },
                    }
                }
            }
            cur.clear();
            proof {
                let lnext = lines_of(text@.take(idx + 1));
                assert(forall|k: int| 0 <= k < lpre.len() ==> #[trigger] lnext[k] == lpre[k]);
                assert(lnext.len() - 1 == lpre.len());
                if bad {
                    if was_bad {
                        let k = choose|k: int|
                            0 <= k < lpre.len() - 1 && !good_line(#[trigger] lpre[k]);
                        assert(!good_line(lnext[k]));
                    } else {
                        assert(lnext[lpre.len() - 1] == closed);
                        assert(!good_line(lnext[lpre.len() - 1]));
                    }
                    assert(exists|k: int|
                        0 <= k < lnext.len() - 1 && !good_line(#[trigger] lnext[k]));
                } else {
                    assert(good_line(closed));
                    assert forall|k: int| 0 <= k < lnext.len() - 1 implies good_line(
                        #[trigger] lnext[k],
                    ) by {
                        if k < lpre.len() - 1 {
                            assert(lnext[k] == lpre[k]);
                        } else {
                            assert(lnext[k] == closed);
                        }
                    }
                }
            }
        } else {
            proof {
                let lnext = lines_of(text@.take(idx + 1));
                assert(lnext == lpre.update(lpre.len() - 1, lpre.last().push(c)));
                assert(lnext.drop_last() =~= lpre.drop_last());
                assert(forall|k: int| 0 <= k < lpre.len() - 1 ==> #[trigger] lnext[k] == lpre[k]);
                assert(lnext.len() == lpre.len());
                if bad {
                    let k = choose|k: int|
                        0 <= k < lpre.len() - 1 && !good_line(#[trigger] lpre[k]);
                    assert(!good_line(lnext[k]));
                    assert(exists|k: int|
                        0 <= k < lnext.len() - 1 && !good_line(#[trigger] lnext[k]));
                } else {
                    assert forall|k: int| 0 <= k < lnext.len() - 1 implies good_line(
                        #[trigger] lnext[k],
                    ) by {
                        assert(lnext[k] == lpre[k]);
                    }
                }
            }
            cur.push(c);
        }
        idx = idx + 1;
    }
    proof {
        assert(text@.take(total as int) =~= text@);
    }
    let ghost lall = lines_of(text@);
    if !bad {
        if cur.len() > 0 {
            let decoded = hex_decode_line(&cur);
            match decoded {
                Ok(v) => {
                    if v.len() == 3 {
                        let col = Color {
                            r: (v[0] as i64) * 256,
                            g: (v[1] as i64) * 256,
                            b: (v[2] as i64) * 256,
                        };
                        proof {
                            assert(cur@.len() == 6);
                            assert(col@ == line_color(cur@));
                            lemma_views_push(done@, col);
                        }
                        done.push(col);
                    } else {
                        bad = true;
                        proof {
                            assert(!good_line(cur@));
                        }
                    }
                },
                Err(_) => {
                    bad = true;
                    proof {
                        assert(!good_line(cur@));
                    }
                },
            }
        }
    }
    if bad {
        return Err(PaletteError::BadLine);
    }
    proof {
        assert(all_good(lall)) by {
            assert(forall|k: int|
                0 <= k < lall.len() - 1 ==> good_line(#[trigger] lall[k]));
            assert(good_line(lall.last()));
        }
        if cur@.len() == 0 {
            assert(palette_of(lall) == palette_of(lall.drop_last()));
        } else {
            assert(palette_of(lall) == palette_of(lall.drop_last()).push(line_color(lall.last())));
        }
    }
    if done.len() == 0 {
        return Err(PaletteError::EmptyPalette);
    }
    Ok(done)
}

} // verus!
