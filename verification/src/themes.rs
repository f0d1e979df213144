//! Classifying syntax themes as light or dark.
//!
//! The light themes are a fixed list of names: `GitHub`, `Monokai Extended Light`, `OneHalfLight`, `ansi-light`, `Solarized (light)`.
//! Every other theme is treated as dark.

use vstd::prelude::*;

verus! {

/// Whether a theme name (as bytes) is one of the light themes.
pub open spec fn is_light_name(s: Seq<u8>) -> bool {
    ||| (s.len() == 6 && s[0] == 71 && s[1] == 105 && s[2] == 116 && s[3] == 72 && s[4] == 117 && s[5] == 98)
    ||| (s.len() == 22 && s[0] == 77 && s[1] == 111 && s[2] == 110 && s[3] == 111 && s[4] == 107 && s[5] == 97 && s[6] == 105 && s[7] == 32 && s[8] == 69 && s[9] == 120 && s[10] == 116 && s[11] == 101 && s[12] == 110 && s[13] == 100 && s[14] == 101 && s[15] == 100 && s[16] == 32 && s[17] == 76 && s[18] == 105 && s[19] == 103 && s[20] == 104 && s[21] == 116)
    ||| (s.len() == 12 && s[0] == 79 && s[1] == 110 && s[2] == 101 && s[3] == 72 && s[4] == 97 && s[5] == 108 && s[6] == 102 && s[7] == 76 && s[8] == 105 && s[9] == 103 && s[10] == 104 && s[11] == 116)
    ||| (s.len() == 10 && s[0] == 97 && s[1] == 110 && s[2] == 115 && s[3] == 105 && s[4] == 45 && s[5] == 108 && s[6] == 105 && s[7] == 103 && s[8] == 104 && s[9] == 116)
    ||| (s.len() == 17 && s[0] == 83 && s[1] == 111 && s[2] == 108 && s[3] == 97 && s[4] == 114 && s[5] == 105 && s[6] == 122 && s[7] == 101 && s[8] == 100 && s[9] == 32 && s[10] == 40 && s[11] == 108 && s[12] == 105 && s[13] == 103 && s[14] == 104 && s[15] == 116 && s[16] == 41)
}

/// Whether a theme is a light theme, by its name.
pub fn is_light_theme(name: &[u8]) -> (r: bool)
    ensures
        r == is_light_name(name@),
{
    (name.len() == 6 && name[0] == 71 && name[1] == 105 && name[2] == 116 && name[3] == 72 && name[4] == 117 && name[5] == 98) || (name.len() == 22 && name[0] == 77 && name[1] == 111 && name[2] == 110 && name[3] == 111 && name[4] == 107 && name[5] == 97 && name[6] == 105 && name[7] == 32 && name[8] == 69 && name[9] == 120 && name[10] == 116 && name[11] == 101 && name[12] == 110 && name[13] == 100 && name[14] == 101 && name[15] == 100 && name[16] == 32 && name[17] == 76 && name[18] == 105 && name[19] == 103 && name[20] == 104 && name[21] == 116) || (name.len() == 12 && name[0] == 79 && name[1] == 110 && name[2] == 101 && name[3] == 72 && name[4] == 97 && name[5] == 108 && name[6] == 102 && name[7] == 76 && name[8] == 105 && name[9] == 103 && name[10] == 104 && name[11] == 116) || (name.len() == 10 && name[0] == 97 && name[1] == 110 && name[2] == 115 && name[3] == 105 && name[4] == 45 && name[5] == 108 && name[6] == 105 && name[7] == 103 && name[8] == 104 && name[9] == 116) || (name.len() == 17 && name[0] == 83 && name[1] == 111 && name[2] == 108 && name[3] == 97 && name[4] == 114 && name[5] == 105 && name[6] == 122 && name[7] == 101 && name[8] == 100 && name[9] == 32 && name[10] == 40 && name[11] == 108 && name[12] == 105 && name[13] == 103 && name[14] == 104 && name[15] == 116 && name[16] == 41)
}

} // verus!
