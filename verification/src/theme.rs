//! The names of the built-in themes.
use crate::text::same_text;
use vstd::prelude::*;

verus! {

/// The theme that is used where none is set.
pub const DEFAULT: &'static str = "catppuccin";

/// The built-in themes for a dark terminal.
pub open spec fn dark_names() -> Seq<Seq<char>> {
    seq![
        "catppuccin"@,
        "catppuccin-frappe"@,
        "catppuccin-macchiato"@,
        "dracula"@,
        "nord"@,
        "gruvbox"@,
        "one-dark"@,
        "solarized"@,
        "monokai"@,
        "tokyo-night"@,
        "rose-pine"@,
    ]
}

/// The built-in themes for a light terminal.
pub open spec fn light_names() -> Seq<Seq<char>> {
    seq![
        "catppuccin-latte"@,
        "gruvbox-light"@,
        "one-light"@,
        "solarized-light"@,
        "github-light"@,
        "tokyo-night-day"@,
        "rose-pine-dawn"@,
    ]
}

/// Whether `name` is the name of a built-in theme.
pub open spec fn known(name: Seq<char>) -> bool {
    dark_names().contains(name) || light_names().contains(name)
}

/// Whether `name` is the name of a built-in theme.
pub fn is_known(name: &str) -> (r: bool)
    ensures
        r == known(name@),
{
    let names: [&str; 18] = [
        "catppuccin",
        "catppuccin-frappe",
        "catppuccin-macchiato",
        "dracula",
        "nord",
        "gruvbox",
        "one-dark",
        "solarized",
        "monokai",
        "tokyo-night",
        "rose-pine",
        "catppuccin-latte",
        "gruvbox-light",
        "one-light",
        "solarized-light",
        "github-light",
        "tokyo-night-day",
        "rose-pine-dawn",
    ];
    let ghost dark = dark_names();
    let ghost light = light_names();
    proof {
        assert forall|k: int| 0 <= k < 18 implies (#[trigger] names@[k])@ == (dark + light)[k] by {
        }
    }
    let mut i: usize = 0;
    while i < 18
        invariant
            i <= 18,
            dark == dark_names(),
            light == light_names(),
            forall|k: int| 0 <= k < 18 ==> (#[trigger] names@[k])@ == (dark + light)[k],
            forall|k: int| 0 <= k < i ==> (#[trigger] names@[k])@ != name@,
        decreases 18 - i,
    {
        if same_text(names[i], name) {
            proof {
                assert((dark + light)[i as int] == name@);
                if i < 11 {
                    assert(dark[i as int] == name@);
                } else {
                    assert(light[i - 11] == name@);
                }
            }
            return true;
        }
        i += 1;
    }
    proof {
        if dark.contains(name@) {
            let k = choose|k: int| 0 <= k < dark.len() && dark[k] == name@;
            assert(names@[k]@ == (dark + light)[k]);
        }
        if light.contains(name@) {
            let k = choose|k: int| 0 <= k < light.len() && light[k] == name@;
            assert(names@[k + 11]@ == (dark + light)[k + 11]);
        }
    }
    false
}

/// The theme that is used where none is set is a built-in one.
pub proof fn law_default_theme_is_known()
    ensures
        known(DEFAULT@),
{
    assert(dark_names()[0] == "catppuccin"@);
}

/// There are eighteen built-in themes, each under a name of its own and either dark or light.
pub proof fn law_theme_names_are_distinct(i: int, j: int)
    requires
        0 <= i < j < 18,
    ensures
        ({
            let all = dark_names() + light_names();
            &&& all.len() == 18
            &&& known(all[i])
            &&& known(all[j])
            &&& all[i] != all[j]
        }),
{
    let (dark, light) = (dark_names(), light_names());
    let all = dark + light;
    assert(known(all[i])) by {
        if i < 11 {
            assert(dark[i] == all[i]);
        } else {
            assert(light[i - 11] == all[i]);
        }
    }
    assert(known(all[j])) by {
        if j < 11 {
            assert(dark[j] == all[j]);
        } else {
            assert(light[j - 11] == all[j]);
        }
    }
    reveal_strlit("catppuccin");
    reveal_strlit("catppuccin-frappe");
    reveal_strlit("catppuccin-macchiato");
    reveal_strlit("dracula");
    reveal_strlit("nord");
    reveal_strlit("gruvbox");
    reveal_strlit("one-dark");
    reveal_strlit("solarized");
    reveal_strlit("monokai");
    reveal_strlit("tokyo-night");
    reveal_strlit("rose-pine");
    reveal_strlit("catppuccin-latte");
    reveal_strlit("gruvbox-light");
    reveal_strlit("one-light");
    reveal_strlit("solarized-light");
    reveal_strlit("github-light");
    reveal_strlit("tokyo-night-day");
    reveal_strlit("rose-pine-dawn");
    let (a, b) = (all[i], all[j]);
    if a == b {
        assert(a.len() == b.len() && a[0] == b[0] && a[3] == b[3] && a.last() == b.last());
    }
}

} // verus!
