//! Character color palettes: named per-character colour sets (normal,
//! shadow, highlight, ...) that travel with the project so everyone
//! drawing a character uses the same numbers.

use vstd::prelude::*;

verus! {

#[derive(Clone, Debug, PartialEq, Eq)]
pub struct ColorRole {
    pub name: String,
    pub color: [u8; 4],
}

#[derive(Clone, Debug, PartialEq, Eq)]
pub struct CharacterPalette {
    pub name: String,
    pub roles: Vec<ColorRole>,
}

#[derive(Clone, Debug, Default, PartialEq, Eq)]
pub struct Palettes {
    pub characters: Vec<CharacterPalette>,
}

impl CharacterPalette {
    /// A fresh character with the standard colour-model triple — the same
    /// values as the per-layer defaults, so a character's "normal" tone
    /// matches what the colour layer paints by default.
    pub fn new(name: String) -> (p: Self)
        ensures
            p.name@ == name@,
            p.roles@.len() == 3,
            p.roles@[0].name@ == "normal"@,
            p.roles@[0].color@ == seq![222u8, 178, 140, 255],
            p.roles@[1].name@ == "shadow"@,
            p.roles@[1].color@ == seq![96u8, 112, 192, 255],
            p.roles@[2].name@ == "highlight"@,
            p.roles@[2].color@ == seq![255u8, 233, 168, 255],
    {
        let mut roles: Vec<ColorRole> = Vec::new();
        roles.push(ColorRole { name: String::from_str("normal"), color: [222, 178, 140, 255] });
        roles.push(ColorRole { name: String::from_str("shadow"), color: [96, 112, 192, 255] });
        roles.push(ColorRole { name: String::from_str("highlight"), color: [255, 233, 168, 255] });
        let p = CharacterPalette { name, roles };
        assert(p.roles@[0].color@ =~= seq![222u8, 178, 140, 255]);
        assert(p.roles@[1].color@ =~= seq![96u8, 112, 192, 255]);
        assert(p.roles@[2].color@ =~= seq![255u8, 233, 168, 255]);
        p
    }
}

/// The character the number keys read: the active one, or the last when
/// `active` is past the end.
pub open spec fn pot_character(n: nat, active: usize) -> int {
    if (active as int) < n { active as int } else { n - 1 }
}

impl Palettes {
    /// The pot lens: with the fill tool armed, number key `key` (0-based)
    /// arms that colour role of the active character. Gives the colour and
    /// the status line that names it, or nothing when there is no
    /// character or no such role.
    pub fn pot(&self, active: usize, key: usize) -> (r: Option<([u8; 4], String)>)
        ensures
            self.characters@.len() == 0 ==> r is None,
            self.characters@.len() > 0 ==> {
                let c = self.characters@[pot_character(self.characters@.len(), active)];
                match r {
                    None => key >= c.roles@.len(),
                    Some((color, status)) => key < c.roles@.len() && color@ == c.roles@[key as int].color@
                        && status@ == "pot: "@ + c.name@ + " \u{b7} "@ + c.roles@[key as int].name@,
                }
            },
    {
        let n = self.characters.len();
        if n == 0 {
            return None;
        }
        let ci = if active < n { active } else { n - 1 };
        let c = &self.characters[ci];
        if key >= c.roles.len() {
            return None;
        }
        let role = &c.roles[key];
        let status = String::from_str("pot: ").concat(c.name.as_str()).concat(" \u{b7} ").concat(role.name.as_str());
        Some((role.color, status))
    }
}

} // verus!
