//! Colours of routes.

use vstd::prelude::*;

verus! {

/// A hexadecimal digit.
pub open spec fn hex_digit(d: int) -> char {
    if d == 0 {
        '0'
    } else if d == 1 {
        '1'
    } else if d == 2 {
        '2'
    } else if d == 3 {
        '3'
    } else if d == 4 {
        '4'
    } else if d == 5 {
        '5'
    } else if d == 6 {
        '6'
    } else if d == 7 {
        '7'
    } else if d == 8 {
        '8'
    } else if d == 9 {
        '9'
    } else if d == 10 {
        'A'
    } else if d == 11 {
        'B'
    } else if d == 12 {
        'C'
    } else if d == 13 {
        'D'
    } else if d == 14 {
        'E'
    } else {
        'F'
    }
}

/// A channel in two hexadecimal digits.
pub open spec fn hex_byte(b: int) -> Seq<char> {
    seq![hex_digit(b / 16), hex_digit(b % 16)]
}

/// A colour in six hexadecimal digits.
pub open spec fn hex_color(red: u8, green: u8, blue: u8) -> Seq<char> {
    hex_byte(red as int) + hex_byte(green as int) + hex_byte(blue as int)
}

fn hex_str(d: u8) -> (r: &'static str)
    requires
        d < 16,
    ensures
        r@ == seq![hex_digit(d as int)],
{
    proof {
        reveal_strlit("0");
        reveal_strlit("1");
        reveal_strlit("2");
        reveal_strlit("3");
        reveal_strlit("4");
        reveal_strlit("5");
        reveal_strlit("6");
        reveal_strlit("7");
        reveal_strlit("8");
        reveal_strlit("9");
        reveal_strlit("A");
        reveal_strlit("B");
        reveal_strlit("C");
        reveal_strlit("D");
        reveal_strlit("E");
        reveal_strlit("F");
    }
    let r = if d == 0 {
        "0"
    } else if d == 1 {
        "1"
    } else if d == 2 {
        "2"
    } else if d == 3 {
        "3"
    } else if d == 4 {
        "4"
    } else if d == 5 {
        "5"
    } else if d == 6 {
        "6"
    } else if d == 7 {
        "7"
    } else if d == 8 {
        "8"
    } else if d == 9 {
        "9"
    } else if d == 10 {
        "A"
    } else if d == 11 {
        "B"
    } else if d == 12 {
        "C"
    } else if d == 13 {
        "D"
    } else if d == 14 {
        "E"
    } else {
        "F"
    };
    assert(r@ =~= seq![hex_digit(d as int)]);
    r
}

fn push_hex(s: &mut String, b: u8)
    ensures
        final(s)@ == old(s)@ + hex_byte(b as int),
{
    let ghost before = s@;
    s.append(hex_str(b / 16));
    s.append(hex_str(b % 16));
    assert(s@ =~= before + hex_byte(b as int));
}

/// The contrast of white on a colour, given the relative luminance of the colour in billionths: the
/// ratio of both luminances, each raised by a twentieth, is larger than that of the colour on black.
pub open spec fn white_reads_better(luminance: int) -> bool {
    1_050_000_000 * 50_000_000 > (luminance + 50_000_000) * (luminance + 50_000_000)
}

/// A colour in hexadecimal digits, and the colour of text on it: black or white, whichever contrasts
/// more. The colour is given by its channels and its relative luminance in billionths.
pub fn parse_color(channels: Option<(u8, u8, u8)>, luminance: u32) -> (r: Option<(String, String)>)
    ensures
        match channels {
            None => r is None,
            Some((red, green, blue)) => r matches Some(p) && p.0@ == hex_color(red, green, blue)
                && p.1@ == (if white_reads_better(luminance as int) {
                "FFFFFF"@
            } else {
                "000000"@
            }),
        },
{
    match channels {
        None => None,
        Some((red, green, blue)) => {
            let mut bg = String::new();
            push_hex(&mut bg, red);
            push_hex(&mut bg, green);
            push_hex(&mut bg, blue);
            assert(bg@ =~= hex_color(red, green, blue));
            let l: u128 = luminance as u128 + 50_000_000;
            assert(l * l <= 0x2_0000_0000 * 0x2_0000_0000) by (nonlinear_arith)
                requires
                    l <= 0x2_0000_0000,
            ;
            let fg = if 1_050_000_000 * 50_000_000 > l * l {
                "FFFFFF".to_owned()
            } else {
                "000000".to_owned()
            };
            Some((bg, fg))
        },
    }
}

/// What a hexadecimal digit stands for.
pub open spec fn hex_value(c: char) -> int {
    if '0' <= c <= '9' {
        c as int - '0' as int
    } else {
        c as int - 'A' as int + 10
    }
}

/// The digits of a colour are read back as its channels: red, green, blue, each with its higher digit first.
/// Letters are capitals.
pub proof fn lemma_hex_color(red: u8, green: u8, blue: u8)
    ensures
        ({
            let s = hex_color(red, green, blue);
            &&& s.len() == 6
            &&& red == 16 * hex_value(s[0]) + hex_value(s[1])
            &&& green == 16 * hex_value(s[2]) + hex_value(s[3])
            &&& blue == 16 * hex_value(s[4]) + hex_value(s[5])
            &&& forall|i: int|
                #![trigger s[i]]
                0 <= i < 6 ==> '0' <= s[i] <= '9' || 'A' <= s[i] <= 'F'
        }),
{
    let s = hex_color(red, green, blue);
    assert forall|i: int| #![trigger s[i]] 0 <= i < 6 implies '0' <= s[i] <= '9' || 'A' <= s[i]
        <= 'F' by {
        assert(i == 0 || i == 1 || i == 2 || i == 3 || i == 4 || i == 5);
    }
}

/// White reads better on dark colours, black on bright ones. The text changes where both contrasts, of a
/// luminance of one with the colour and of the colour with none, each raised by a twentieth, are the same:
/// above a luminance of about eighteen hundredths.
pub proof fn lemma_text_color(luminance: int)
    requires
        luminance >= 0,
    ensures
        white_reads_better(luminance) <==> luminance <= 179_128_784,
{
    let l = luminance + 50_000_000;
    if luminance <= 179_128_784 {
        assert(l * l <= 229_128_784 * 229_128_784) by (nonlinear_arith)
            requires
                0 <= l <= 229_128_784,
        ;
    } else {
        assert(l * l >= 229_128_785 * 229_128_785) by (nonlinear_arith)
            requires
                l >= 229_128_785,
        ;
    }
}

} // verus!
