//! A parenthesized textual form of the tree, as a debugging utility: a leaf
//! prints as the eight lowercase hex digits of its color's packed 32-bit
//! code, an internal node as its four children (absent ones empty) between
//! parentheses, separated by single spaces, in NW, NE, SE, SW order.

use vstd::prelude::*;
use vstd::string::StringExecFns;

use crate::color::Color;
use crate::tree::Node;

verus! {

/// The packed 32-bit code of a color: red in the highest byte, then green,
/// blue, alpha.
pub open spec fn color_code(c: Color) -> int {
    0x100_0000 * c.r + 0x1_0000 * c.g + 0x100 * c.b + c.a
}

/// The lowercase hex digit character of a value below 16.
pub open spec fn hex_digit(v: int) -> char {
    if v == 0 {
        '0'
    } else if v == 1 {
        '1'
    } else if v == 2 {
        '2'
    } else if v == 3 {
        '3'
    } else if v == 4 {
        '4'
    } else if v == 5 {
        '5'
    } else if v == 6 {
        '6'
    } else if v == 7 {
        '7'
    } else if v == 8 {
        '8'
    } else if v == 9 {
        '9'
    } else if v == 10 {
        'a'
    } else if v == 11 {
        'b'
    } else if v == 12 {
        'c'
    } else if v == 13 {
        'd'
    } else if v == 14 {
        'e'
    } else {
        'f'
    }
}

/// The eight lowercase hex digits of a color's packed code, highest first.
pub open spec fn hex_of_color(c: Color) -> Seq<char> {
    let v = color_code(c);
    seq![
        hex_digit(v / 0x1000_0000 % 16),
        hex_digit(v / 0x100_0000 % 16),
        hex_digit(v / 0x10_0000 % 16),
        hex_digit(v / 0x1_0000 % 16),
        hex_digit(v / 0x1000 % 16),
        hex_digit(v / 0x100 % 16),
        hex_digit(v / 0x10 % 16),
        hex_digit(v % 16),
    ]
}

/// The textual form of a subtree.
pub open spec fn text_of(n: Node) -> Seq<char>
    decreases n,
{
    match n {
        Node::Leaf { color, .. } => hex_of_color(color),
        Node::Internal { nw, ne, se, sw, .. } => seq!['('] + opt_text(nw) + seq![' '] + opt_text(
            ne,
        ) + seq![' '] + opt_text(se) + seq![' '] + opt_text(sw) + seq![')'],
    }
}

/// An absent child prints as the empty string.
pub open spec fn opt_text(c: Option<Box<Node>>) -> Seq<char>
    decreases c,
{
    match c {
        None => Seq::empty(),
        Some(b) => text_of(*b),
    }
}

fn hex_char(d: u32) -> (s: &'static str)
    requires
        d < 16,
    ensures
        s@.len() == 1,
        s@[0] == hex_digit(d as int),
{
    proof {
        reveal_strlit("0");
        reveal_strlit("1");
        reveal_strlit("2");
        reveal_strlit("3");
        reveal_strlit("4");
        reveal_strlit("5");
        reveal_strlit("6");
        reveal_strlit("7");
        reveal_strlit("8");
        reveal_strlit("9");
        reveal_strlit("a");
        reveal_strlit("b");
        reveal_strlit("c");
        reveal_strlit("d");
        reveal_strlit("e");
        reveal_strlit("f");
    }
    if d == 0 {
        "0"
    } else if d == 1 {
        "1"
    } else if d == 2 {
        "2"
    } else if d == 3 {
        "3"
    } else if d == 4 {
        "4"
    } else if d == 5 {
        "5"
    } else if d == 6 {
        "6"
    } else if d == 7 {
        "7"
    } else if d == 8 {
        "8"
    } else if d == 9 {
        "9"
    } else if d == 10 {
        "a"
    } else if d == 11 {
        "b"
    } else if d == 12 {
        "c"
    } else if d == 13 {
        "d"
    } else if d == 14 {
        "e"
    } else {
        "f"
    }
}

/// The eight-digit lowercase hex form of a color's packed code.
pub fn rgba_to_hex(c: &Color) -> (s: String)
    ensures
        s@ == hex_of_color(*c),
{
    let v: u32 = 0x100_0000 * (c.r as u32) + 0x1_0000 * (c.g as u32) + 0x100 * (c.b as u32) + (
    c.a as u32);
    let mut s = String::new();
    s.append(hex_char(v / 0x1000_0000 % 16));
    s.append(hex_char(v / 0x100_0000 % 16));
    s.append(hex_char(v / 0x10_0000 % 16));
    s.append(hex_char(v / 0x1_0000 % 16));
    s.append(hex_char(v / 0x1000 % 16));
    s.append(hex_char(v / 0x100 % 16));
    s.append(hex_char(v / 0x10 % 16));
    s.append(hex_char(v % 16));
    proof {
        assert(v == color_code(*c));
        assert(s@ =~= hex_of_color(*c));
    }
    s
}

/// The parenthesized textual form of a subtree.
pub fn aux_to_text(n: &Node) -> (s: String)
    ensures
        s@ == text_of(*n),
    decreases n,
{
    match n {
        Node::Leaf { color, .. } => rgba_to_hex(color),
        Node::Internal { nw, ne, se, sw, .. } => {
            proof {
                reveal_strlit("(");
                reveal_strlit(" ");
                reveal_strlit(")");
            }
            let mut s = String::from_str("(");
            if let Some(b) = nw {
                let t = aux_to_text(&**b);
                s.append(t.as_str());
            }
            s.append(" ");
            if let Some(b) = ne {
                let t = aux_to_text(&**b);
                s.append(t.as_str());
            }
            s.append(" ");
            if let Some(b) = se {
                let t = aux_to_text(&**b);
                s.append(t.as_str());
            }
            s.append(" ");
            if let Some(b) = sw {
                let t = aux_to_text(&**b);
                s.append(t.as_str());
            }
            s.append(")");
            proof {
                assert("("@ =~= seq!['(']);
                assert(" "@ =~= seq![' ']);
                assert(")"@ =~= seq![')']);
                assert(s@ =~= text_of(*n));
            }
            s
        },
    }
}

} // verus!
