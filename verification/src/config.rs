//! Configuration data: the colour palette, per-region text attributes,
//! and miscellaneous settings, with the `#RRGGBB` colour notation parser.

use vstd::prelude::*;

verus! {

/// A true colour.
#[derive(Clone, Copy, Debug, PartialEq, Eq, Structural)]
pub struct Colour {
    pub red: u8,
    pub green: u8,
    pub blue: u8,
}

/// The named style of one screen region, colours given as palette names.
pub struct ConfigTextAttr {
    pub fg: Vec<u8>,
    pub bg: Vec<u8>,
    pub bold: bool,
}

/// The styles of the four screen regions.
pub struct ConfigUi {
    pub default: ConfigTextAttr,
    pub header: ConfigTextAttr,
    pub status: ConfigTextAttr,
    pub line_nums: ConfigTextAttr,
}

/// Settings that belong to no screen region.
pub struct ConfigMisc {
    pub tab_size: usize,
}

/// A file type known to the configuration.
pub struct FileType {
    pub name: Vec<u8>,
}

/// The whole configuration: settings, palette, and region styles.
pub struct Config {
    pub misc: ConfigMisc,
    pub palette: Vec<(Vec<u8>, Colour)>,
    pub ui: ConfigUi,
}

/// Whether the byte is an ASCII hexadecimal digit.
pub open spec fn is_hex_digit(b: u8) -> bool {
    (48 <= b <= 57) || (97 <= b <= 102) || (65 <= b <= 70)
}

/// The value of an ASCII hexadecimal digit.
pub open spec fn hex_val(b: u8) -> int {
    if 48 <= b <= 57 {
        b - 48
    } else if 97 <= b <= 102 {
        b - 87
    } else if 65 <= b <= 70 {
        b - 55
    } else {
        0
    }
}

/// Whether the bytes are a `#` followed by six hexadecimal digits.
pub open spec fn is_hex_colour(s: Seq<u8>) -> bool {
    s.len() == 7 && s[0] == 35u8 && forall|i: int| 1 <= i < 7 ==> is_hex_digit(#[trigger] s[i])
}

/// The colour the seven bytes denote.
pub open spec fn hex_colour(s: Seq<u8>) -> Colour {
    Colour {
        red: (hex_val(s[1]) * 16 + hex_val(s[2])) as u8,
        green: (hex_val(s[3]) * 16 + hex_val(s[4])) as u8,
        blue: (hex_val(s[5]) * 16 + hex_val(s[6])) as u8,
    }
}

impl Colour {
    /// Parses `#RRGGBB`: exactly a hash and six hexadecimal digits, else
    /// nothing.
    pub fn parse(src: &[u8]) -> (r: Option<Colour>)
        ensures
            r is Some <==> is_hex_colour(src@),
            r is Some ==> r->0 == hex_colour(src@),
    {
        if src.len() != 7 {
            return None;
        }
        if src[0] != 35 {
            return None;
        }
        let mut bytes: [u8; 6] = [0, 0, 0, 0, 0, 0];
        let mut i: usize = 1;
        while i < 7
            invariant
                1 <= i <= 7,
                src@.len() == 7,
                forall|j: int| 1 <= j < i ==> is_hex_digit(#[trigger] src@[j]),
                forall|j: int| 1 <= j < i ==> bytes@[j - 1] == hex_val(src@[j]),
            decreases 7 - i,
        {
            let b = src[i];
            let v: u8 = if 48 <= b && b <= 57 {
                b - 48
            } else if 97 <= b && b <= 102 {
                b - 87
            } else if 65 <= b && b <= 70 {
                b - 55
            } else {
                return None;
            };
            bytes[i - 1] = v;
            i = i + 1;
        }
        proof {
            assert(forall|j: int| 1 <= j < 7 ==> 0 <= hex_val(#[trigger] src@[j]) <= 15);
            assert(bytes@[0] == hex_val(src@[1]) && bytes@[1] == hex_val(src@[2])
                && bytes@[2] == hex_val(src@[3]) && bytes@[3] == hex_val(src@[4])
                && bytes@[4] == hex_val(src@[5]) && bytes@[5] == hex_val(src@[6]));
        }
        Some(
            Colour {
                red: bytes[0] * 16 + bytes[1],
                green: bytes[2] * 16 + bytes[3],
                blue: bytes[4] * 16 + bytes[5],
            },
        )
    }
}

/// The colour the palette gives a name, searching from the front.
pub open spec fn lookup(p: Seq<(Vec<u8>, Colour)>, name: Seq<u8>) -> Option<Colour>
    decreases p.len(),
{
    if p.len() == 0 {
        None
    } else if p[0].0@ == name {
        Some(p[0].1)
    } else {
        lookup(p.drop_first(), name)
    }
}

/// Whether two byte strings hold the same bytes.
pub fn bytes_eq(a: &[u8], b: &[u8]) -> (r: bool)
    ensures
        r == (a@ == b@),
{
    if a.len() != b.len() {
        proof {
            assert(a@ != b@);
        }
        return false;
    }
    let n = a.len();
    let mut i: usize = 0;
    while i < n
        invariant
            n == a@.len() == b@.len(),
            i <= n,
            forall|j: int| 0 <= j < i ==> a@[j] == b@[j],
        decreases n - i,
    {
        if a[i] != b[i] {
            return false;
        }
        i = i + 1;
    }
    proof {
        assert(a@ =~= b@);
    }
    true
}

/// Finds a name in the palette.
pub fn palette_get(p: &Vec<(Vec<u8>, Colour)>, name: &Vec<u8>) -> (r: Option<Colour>)
    ensures
        r == lookup(p@, name@),
{
    let n = p.len();
    let mut i: usize = 0;
    proof {
        assert(p@.skip(0) =~= p@);
    }
    while i < n
        invariant
            n == p@.len(),
            i <= n,
            lookup(p@, name@) == lookup(p@.skip(i as int), name@),
        decreases n - i,
    {
        let hit = bytes_eq(p[i].0.as_slice(), name.as_slice());
        proof {
            assert(p@.skip(i as int)[0] == p@[i as int]);
            assert(p@.skip(i as int).drop_first() =~= p@.skip(i + 1));
        }
        if hit {
            return Some(p[i].1);
        }
        i = i + 1;
    }
    proof {
        assert(p@.skip(n as int).len() == 0);
    }
    None
}

} // verus!
