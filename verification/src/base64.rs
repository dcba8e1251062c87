use vstd::prelude::*;

verus! {

/// The character standing for a 6-bit group.  The alphabet is base64-like:
/// letters, digits, and a space for the last two positions.
pub open spec fn b64_char(index: u8) -> char {
    if index == 0 {
        'A'
    } else if index == 1 {
        'B'
    } else if index == 2 {
        'C'
    } else if index == 3 {
        'D'
    } else if index == 4 {
        'E'
    } else if index == 5 {
        'F'
    } else if index == 6 {
        'G'
    } else if index == 7 {
        'H'
    } else if index == 8 {
        'I'
    } else if index == 9 {
        'J'
    } else if index == 10 {
        'K'
    } else if index == 11 {
        'L'
    } else if index == 12 {
        'M'
    } else if index == 13 {
        'N'
    } else if index == 14 {
        'O'
    } else if index == 15 {
        'P'
    } else if index == 16 {
        'Q'
    } else if index == 17 {
        'R'
    } else if index == 18 {
        'S'
    } else if index == 19 {
        'T'
    } else if index == 20 {
        'U'
    } else if index == 21 {
        'V'
    } else if index == 22 {
        'W'
    } else if index == 23 {
        'X'
    } else if index == 24 {
        'Y'
    } else if index == 25 {
        'Z'
    } else if index == 26 {
        'a'
    } else if index == 27 {
        'b'
    } else if index == 28 {
        'c'
    } else if index == 29 {
        'd'
    } else if index == 30 {
        'e'
    } else if index == 31 {
        'f'
    } else if index == 32 {
        'g'
    } else if index == 33 {
        'h'
    } else if index == 34 {
        'i'
    } else if index == 35 {
        'j'
    } else if index == 36 {
        'k'
    } else if index == 37 {
        'l'
    } else if index == 38 {
        'm'
    } else if index == 39 {
        'n'
    } else if index == 40 {
        'o'
    } else if index == 41 {
        'p'
    } else if index == 42 {
        'q'
    } else if index == 43 {
        'r'
    } else if index == 44 {
        's'
    } else if index == 45 {
        't'
    } else if index == 46 {
        'u'
    } else if index == 47 {
        'v'
    } else if index == 48 {
        'w'
    } else if index == 49 {
        'x'
    } else if index == 50 {
        'y'
    } else if index == 51 {
        'z'
    } else if index == 52 {
        '0'
    } else if index == 53 {
        '1'
    } else if index == 54 {
        '2'
    } else if index == 55 {
        '3'
    } else if index == 56 {
        '4'
    } else if index == 57 {
        '5'
    } else if index == 58 {
        '6'
    } else if index == 59 {
        '7'
    } else if index == 60 {
        '8'
    } else if index == 61 {
        '9'
    } else if index == 62 {
        ' '
    } else {
        ' '
    }
}

/// The four 6-bit groups of three bytes, each mapped to its character.
pub open spec fn b64_quad(a: u8, b: u8, c: u8) -> Seq<char> {
    seq![
        b64_char(a >> 2),
        b64_char((((a & 0x03) << 4) + (b >> 4)) as u8),
        b64_char((((b & 0x0f) << 2) + (c >> 6)) as u8),
        b64_char(c & 0x3f),
    ]
}

/// The encoding of a byte sequence: four characters for every three bytes,
/// with two or three characters for a trailing one or two bytes.
pub open spec fn b64_encode(bytes: Seq<u8>) -> Seq<char>
    decreases bytes.len(),
{
    if bytes.len() == 0 {
        Seq::empty()
    } else if bytes.len() == 1 {
        b64_quad(bytes[0], 0, 0).take(2)
    } else if bytes.len() == 2 {
        b64_quad(bytes[0], bytes[1], 0).take(3)
    } else {
        b64_quad(bytes[0], bytes[1], bytes[2]) + b64_encode(bytes.skip(3))
    }
}

/// The one-character string standing for a 6-bit group.
fn b64_str_of(index: u8) -> (s: &'static str)
    requires
        index < 64,
    ensures
        s@ == seq![b64_char(index)],
{
    let s = match index {
        0 => {
            proof {
                reveal_strlit("A");
            }
            "A"
        },
        1 => {
            proof {
                reveal_strlit("B");
            }
            "B"
        },
        2 => {
            proof {
                reveal_strlit("C");
            }
            "C"
        },
        3 => {
            proof {
                reveal_strlit("D");
            }
            "D"
        },
        4 => {
            proof {
                reveal_strlit("E");
            }
            "E"
        },
        5 => {
            proof {
                reveal_strlit("F");
            }
            "F"
        },
        6 => {
            proof {
                reveal_strlit("G");
            }
            "G"
        },
        7 => {
            proof {
                reveal_strlit("H");
            }
            "H"
        },
        8 => {
            proof {
                reveal_strlit("I");
            }
            "I"
        },
        9 => {
            proof {
                reveal_strlit("J");
            }
            "J"
        },
        10 => {
            proof {
                reveal_strlit("K");
            }
            "K"
        },
        11 => {
            proof {
                reveal_strlit("L");
            }
            "L"
        },
        12 => {
            proof {
                reveal_strlit("M");
            }
            "M"
        },
        13 => {
            proof {
                reveal_strlit("N");
            }
            "N"
        },
        14 => {
            proof {
                reveal_strlit("O");
            }
            "O"
        },
        15 => {
            proof {
                reveal_strlit("P");
            }
            "P"
        },
        16 => {
            proof {
                reveal_strlit("Q");
            }
            "Q"
        },
        17 => {
            proof {
                reveal_strlit("R");
            }
            "R"
        },
        18 => {
            proof {
                reveal_strlit("S");
            }
            "S"
        },
        19 => {
            proof {
                reveal_strlit("T");
            }
            "T"
        },
        20 => {
            proof {
                reveal_strlit("U");
            }
            "U"
        },
        21 => {
            proof {
                reveal_strlit("V");
            }
            "V"
        },
        22 => {
            proof {
                reveal_strlit("W");
            }
            "W"
        },
        23 => {
            proof {
                reveal_strlit("X");
            }
            "X"
        },
        24 => {
            proof {
                reveal_strlit("Y");
            }
            "Y"
        },
        25 => {
            proof {
                reveal_strlit("Z");
            }
            "Z"
        },
        26 => {
            proof {
                reveal_strlit("a");
            }
            "a"
        },
        27 => {
            proof {
                reveal_strlit("b");
            }
            "b"
        },
        28 => {
            proof {
                reveal_strlit("c");
            }
            "c"
        },
        29 => {
            proof {
                reveal_strlit("d");
            }
            "d"
        },
        30 => {
            proof {
                reveal_strlit("e");
            }
            "e"
        },
        31 => {
            proof {
                reveal_strlit("f");
            }
            "f"
        },
        32 => {
            proof {
                reveal_strlit("g");
            }
            "g"
        },
        33 => {
            proof {
                reveal_strlit("h");
            }
            "h"
        },
        34 => {
            proof {
                reveal_strlit("i");
            }
            "i"
        },
        35 => {
            proof {
                reveal_strlit("j");
            }
            "j"
        },
        36 => {
            proof {
                reveal_strlit("k");
            }
            "k"
        },
        37 => {
            proof {
                reveal_strlit("l");
            }
            "l"
        },
        38 => {
            proof {
                reveal_strlit("m");
            }
            "m"
        },
        39 => {
            proof {
                reveal_strlit("n");
            }
            "n"
        },
        40 => {
            proof {
                reveal_strlit("o");
            }
            "o"
        },
        41 => {
            proof {
                reveal_strlit("p");
            }
            "p"
        },
        42 => {
            proof {
                reveal_strlit("q");
            }
            "q"
        },
        43 => {
            proof {
                reveal_strlit("r");
            }
            "r"
        },
        44 => {
            proof {
                reveal_strlit("s");
            }
            "s"
        },
        45 => {
            proof {
                reveal_strlit("t");
            }
            "t"
        },
        46 => {
            proof {
                reveal_strlit("u");
            }
            "u"
        },
        47 => {
            proof {
                reveal_strlit("v");
            }
            "v"
        },
        48 => {
            proof {
                reveal_strlit("w");
            }
            "w"
        },
        49 => {
            proof {
                reveal_strlit("x");
            }
            "x"
        },
        50 => {
            proof {
                reveal_strlit("y");
            }
            "y"
        },
        51 => {
            proof {
                reveal_strlit("z");
            }
            "z"
        },
        52 => {
            proof {
                reveal_strlit("0");
            }
            "0"
        },
        53 => {
            proof {
                reveal_strlit("1");
            }
            "1"
        },
        54 => {
            proof {
                reveal_strlit("2");
            }
            "2"
        },
        55 => {
            proof {
                reveal_strlit("3");
            }
            "3"
        },
        56 => {
            proof {
                reveal_strlit("4");
            }
            "4"
        },
        57 => {
            proof {
                reveal_strlit("5");
            }
            "5"
        },
        58 => {
            proof {
                reveal_strlit("6");
            }
            "6"
        },
        59 => {
            proof {
                reveal_strlit("7");
            }
            "7"
        },
        60 => {
            proof {
                reveal_strlit("8");
            }
            "8"
        },
        61 => {
            proof {
                reveal_strlit("9");
            }
            "9"
        },
        62 => {
            proof {
                reveal_strlit(" ");
            }
            " "
        },
        _ => {
            proof {
                reveal_strlit(" ");
            }
            " "
        },
    };
    proof {
        assert(s@ =~= seq![b64_char(index)]);
    }
    s
}

/// Append the four characters encoding three bytes, or only the first
/// `keep` of them for a trailing partial group.
fn encode_one(input: [u8; 3], keep: usize, out: &mut String)
    requires
        1 <= keep <= 4,
    ensures
        final(out)@ == old(out)@ + b64_quad(input[0], input[1], input[2]).take(keep as int),
{
    let a = input[0];
    let b = input[1];
    let c = input[2];
    proof {
        assert((a & 0x03) << 4 <= 0x30 && b >> 4 <= 0x0f && (b & 0x0f) << 2 <= 0x3c && c >> 6
            <= 0x03 && a >> 2 < 64 && c & 0x3f < 64) by (bit_vector);
    }
    let i0 = a >> 2;
    let i1 = ((a & 0x03) << 4) + (b >> 4);
    let i2 = ((b & 0x0f) << 2) + (c >> 6);
    let i3 = c & 0x3f;
    let ghost out0 = out@;
    let ghost quad = b64_quad(a, b, c);
    out.append(b64_str_of(i0));
    if keep >= 2 {
        out.append(b64_str_of(i1));
    }
    if keep >= 3 {
        out.append(b64_str_of(i2));
    }
    if keep == 4 {
        out.append(b64_str_of(i3));
    }
    proof {
        assert(out@ =~= out0 + quad.take(keep as int));
    }
}

/// Encode the bytes in a base64-like alphabet: four characters for every
/// three bytes, a partial group for a trailing one or two bytes.
pub fn encode(bytes: &[u8]) -> (s: String)
    ensures
        s@ == b64_encode(bytes@),
{
    let ghost all = bytes@;
    let mut out = String::new();
    let mut idx: usize = 0;
    proof {
        assert(all.skip(0) =~= all);
        assert(out@ =~= Seq::<char>::empty());
    }
    while bytes.len() - idx >= 3
        invariant
            idx <= bytes@.len(),
            all == bytes@,
            out@ + b64_encode(all.skip(idx as int)) == b64_encode(all),
        decreases bytes.len() - idx,
    {
        let ghost rem = all.skip(idx as int);
        let ghost out0 = out@;
        let input = [bytes[idx], bytes[idx + 1], bytes[idx + 2]];
        encode_one(input, 4, &mut out);
        proof {
            assert(input[0] == rem[0] && input[1] == rem[1] && input[2] == rem[2]);
            assert(rem.skip(3) =~= all.skip(idx + 3));
            assert(b64_encode(rem) == b64_quad(rem[0], rem[1], rem[2]) + b64_encode(
                all.skip(idx + 3),
            ));
            assert(b64_quad(rem[0], rem[1], rem[2]).take(4) =~= b64_quad(
                rem[0],
                rem[1],
                rem[2],
            ));
            assert(out@ + b64_encode(all.skip(idx + 3)) =~= out0 + b64_encode(rem));
        }
        idx = idx + 3;
    }
    let ghost rem = all.skip(idx as int);
    if bytes.len() - idx == 2 {
        let input = [bytes[idx], bytes[idx + 1], 0u8];
        proof {
            assert(rem.len() == 2);
            assert(input[0] == rem[0] && input[1] == rem[1]);
            assert(b64_encode(rem) == b64_quad(rem[0], rem[1], 0).take(3));
        }
        encode_one(input, 3, &mut out);
    } else if bytes.len() - idx == 1 {
        let input = [bytes[idx], 0u8, 0u8];
        proof {
            assert(rem.len() == 1);
            assert(input[0] == rem[0]);
            assert(b64_encode(rem) == b64_quad(rem[0], 0, 0).take(2));
        }
        encode_one(input, 2, &mut out);
    } else {
        proof {
            assert(rem.len() == 0);
            assert(out@ =~= out@ + b64_encode(rem));
        }
    }
    out
}

} // verus!
