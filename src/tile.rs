use colored::Colorize;
use vstd::prelude::*;
use vstd::string::*;

verus! {

/// What a grid cell holds once the board is generated.
#[derive(Debug, Copy, Clone, PartialEq, Eq, Structural)]
pub enum Tile {
    Bomb,
    BombNeighbor(u8),
    Empty,
}

/// The number shown on a cell next to bombs.
#[derive(Debug, Copy, Clone, PartialEq, Eq, Structural)]
pub struct BombNeighbour(u8);

impl View for BombNeighbour {
    type V = nat;

    closed spec fn view(&self) -> nat {
        self.0 as nat
    }
}

impl BombNeighbour {
    pub fn new(count: u8) -> (r: Self)
        ensures
            r@ == count as nat,
    {
        BombNeighbour(count)
    }
}

/// Terminal colours used to draw tiles.
#[derive(Debug, Copy, Clone, PartialEq, Eq, Structural)]
pub enum Hue {
    BrightRed,
    Cyan,
    Green,
    Yellow,
    Red,
}

pub open spec fn digit_char(d: nat) -> char {
    if d == 0 { '0' } else if d == 1 { '1' } else if d == 2 { '2' } else if d == 3 { '3' }
    else if d == 4 { '4' } else if d == 5 { '5' } else if d == 6 { '6' } else if d == 7 { '7' }
    else if d == 8 { '8' } else { '9' }
}

/// Decimal notation of `n`, without leading zeros.
pub open spec fn decimal_of(n: nat) -> Seq<char>
    decreases n,
{
    if n < 10 {
        seq![digit_char(n)]
    } else {
        decimal_of(n / 10).push(digit_char(n % 10))
    }
}

fn digit_str(d: u64) -> (r: &'static str)
    requires
        d < 10,
    ensures
        r@ == seq![digit_char(d as nat)],
{
    proof {
        reveal_strlit("0");
        reveal_strlit("1");
        reveal_strlit("2");
        reveal_strlit("3");
        reveal_strlit("4");
        reveal_strlit("5");
        reveal_strlit("6");
        reveal_strlit("7");
        reveal_strlit("8");
        reveal_strlit("9");
    }
    if d == 0 { "0" } else if d == 1 { "1" } else if d == 2 { "2" } else if d == 3 { "3" }
    else if d == 4 { "4" } else if d == 5 { "5" } else if d == 6 { "6" } else if d == 7 { "7" }
    else if d == 8 { "8" } else { "9" }
}

/// Writes `n` in decimal.
pub fn decimal(n: u64) -> (r: String)
    ensures
        r@ == decimal_of(n as nat),
    decreases n,
{
    if n < 10 {
        String::from_str(digit_str(n))
    } else {
        let mut s = decimal(n / 10);
        s.append(digit_str(n % 10));
        s
    }
}

/// The escape sequence that ends a styled span on an ANSI terminal.
pub open spec fn reset_seq() -> Seq<char> {
    seq!['\x1b', '[', '0', 'm']
}

/// `r` shows `text`: either as it is, or after an ANSI style sequence and
/// before a reset, as a colour-capable terminal gets it.
pub open spec fn painted(r: Seq<char>, text: Seq<char>) -> bool {
    r == text || exists|style: Seq<char>|
        #![trigger style + text]
        r == style + text + reset_seq() && style.len() >= 3 && style[0] == '\x1b' && style[1]
            == '[' && style.last() == 'm'
}

/// Relies on colored's `Colorize::color` and the `Display` of `ColoredString`: the text
/// comes out unchanged when colours are off, and otherwise between a style sequence
/// (`ESC [ ... m`) and the reset `ESC [0m`; text without an escape character is not
/// rewritten.
#[verifier::external_body]
fn paint(text: &str, hue: Hue) -> (r: String)
    requires
        !text@.contains('\x1b'),
    ensures
        painted(r@, text@),
{
    let color = match hue {
        Hue::BrightRed => colored::Color::BrightRed,
        Hue::Cyan => colored::Color::Cyan,
        Hue::Green => colored::Color::Green,
        Hue::Yellow => colored::Color::Yellow,
        Hue::Red => colored::Color::Red,
    };
    text.color(color).to_string()
}

/// Relies on colored's `Colorize::normal`: a string with no colour and no style is
/// displayed as its text alone.
#[verifier::external_body]
fn unpainted(text: &str) -> (r: String)
    ensures
        r@ == text@,
{
    text.normal().to_string()
}

/// The symbol drawn for a tile.
pub open spec fn glyph_of(t: Tile) -> Seq<char> {
    match t {
        Tile::Bomb => seq!['*'],
        Tile::BombNeighbor(v) => decimal_of(v as nat),
        Tile::Empty => seq![' '],
    }
}

/// The colour a tile is drawn in; `None` for the default colour.
pub open spec fn hue_of(t: Tile) -> Option<Hue> {
    match t {
        Tile::Bomb => Some(Hue::BrightRed),
        Tile::BombNeighbor(v) => Some(
            if v == 1 {
                Hue::Cyan
            } else if v == 2 {
                Hue::Green
            } else if v == 3 {
                Hue::Yellow
            } else {
                Hue::Red
            },
        ),
        Tile::Empty => None,
    }
}

/// `s` is how a tile is printed on a terminal: a space, then its symbol, coloured
/// when the tile has a colour and the terminal takes colours.
pub open spec fn shows_tile(t: Tile, s: Seq<char>) -> bool {
    &&& s.len() >= 1
    &&& s[0] == ' '
    &&& match hue_of(t) {
        Some(_) => painted(s.drop_first(), glyph_of(t)),
        None => s.drop_first() == glyph_of(t),
    }
}

proof fn lemma_decimal_digits(n: nat)
    ensures
        !decimal_of(n).contains('\x1b'),
    decreases n,
{
    if n >= 10 {
        lemma_decimal_digits(n / 10);
        let s = decimal_of(n / 10);
        let t = s.push(digit_char(n % 10));
        if t.contains('\x1b') {
            let i = choose|i: int| 0 <= i < t.len() && t[i] == '\x1b';
            if i < s.len() {
                assert(s[i] == t[i]);
                assert(s.contains('\x1b'));
            }
        }
    }
}

impl Tile {
    pub fn is_bomb(&self) -> (r: bool)
        ensures
            r == (*self is Bomb),
    {
        matches!(self, Tile::Bomb)
    }

    /// The symbol drawn for this tile.
    pub fn glyph(&self) -> (r: String)
        ensures
            r@ == glyph_of(*self),
    {
        proof {
            reveal_strlit("*");
            reveal_strlit(" ");
        }
        match self {
            Tile::Bomb => String::from_str("*"),
            Tile::BombNeighbor(v) => decimal(*v as u64),
            Tile::Empty => String::from_str(" "),
        }
    }

    /// The colour this tile is drawn in.
    pub fn hue(&self) -> (r: Option<Hue>)
        ensures
            r == hue_of(*self),
    {
        match self {
            Tile::Bomb => Some(Hue::BrightRed),
            Tile::BombNeighbor(v) => {
                if *v == 1 {
                    Some(Hue::Cyan)
                } else if *v == 2 {
                    Some(Hue::Green)
                } else if *v == 3 {
                    Some(Hue::Yellow)
                } else {
                    Some(Hue::Red)
                }
            },
            Tile::Empty => None,
        }
    }

    /// A space followed by the tile's symbol, coloured for a terminal.
    pub fn console_output(&self) -> (r: String)
        ensures
            shows_tile(*self, r@),
    {
        proof {
            reveal_strlit(" ");
            if let Tile::BombNeighbor(v) = *self {
                lemma_decimal_digits(v as nat);
            }
            if *self is Bomb {
                assert(!seq!['*'].contains('\x1b')) by {
                    if seq!['*'].contains('\x1b') {
                        let i = choose|i: int| 0 <= i < 1 && seq!['*'][i] == '\x1b';
                    }
                }
            }
        }
        let symbol = self.glyph();
        let shown = match self.hue() {
            Some(h) => paint(symbol.as_str(), h),
            None => unpainted(symbol.as_str()),
        };
        let r = String::from_str(" ").concat(shown.as_str());
        proof {
            assert(r@.drop_first() =~= shown@);
        }
        r
    }
}

} // verus!
