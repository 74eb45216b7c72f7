//! What the About boxes say: the credits, and what the keys do.

use vstd::prelude::*;

use crate::classify::strs;

verus! {

/// A key and what it does.
pub open spec fn key_lines(v: Seq<(&'static str, &'static str)>) -> Seq<(Seq<char>, Seq<char>)> {
    Seq::new(v.len(), |i: int| (v[i].0@, v[i].1@))
}

/// What disktree inspired, as the window says it.
pub fn window_credits() -> (r: &'static str)
    ensures
        r@
            == "The treemap — colour for the kind of data, a hatch for space that can be had back, one reserved highlight for the selection — the mark → review → remove flow, and measuring real disk usage with hard links counted once all follow disktree. The sunburst view, the Abyssal theme and the Ubuntu-specific recommendation engine are Disk Prune's own."@,
{
    "The treemap — colour for the kind of data, a hatch for space that can be had back, one reserved highlight for the selection — the mark → review → remove flow, and measuring real disk usage with hard links counted once all follow disktree. The sunburst view, the Abyssal theme and the Ubuntu-specific recommendation engine are Disk Prune's own."
}

/// What disktree inspired, in the lines of the terminal.
pub fn terminal_credits() -> (r: Vec<&'static str>)
    ensures
        strs(r@) == seq![
            "    The treemap (colour = kind of data, hatching = space you can"@,
            "    have back, amber = selection), the mark → review → remove flow"@,
            "    and the st_blocks / hardlinks-once measuring follow disktree."@,
        ],
{
    let r: Vec<&'static str> = vec![
        "    The treemap (colour = kind of data, hatching = space you can",
        "    have back, amber = selection), the mark → review → remove flow",
        "    and the st_blocks / hardlinks-once measuring follow disktree.",
    ];
    assert(strs(r@) =~= seq![
        "    The treemap (colour = kind of data, hatching = space you can"@,
        "    have back, amber = selection), the mark → review → remove flow"@,
        "    and the st_blocks / hardlinks-once measuring follow disktree."@,
    ]);
    r
}

/// The keys of the window.
pub fn window_keys() -> (r: Vec<(&'static str, &'static str)>)
    ensures
        key_lines(r@) == seq![
            ("1  2  3  4  5"@, "Treemap · Sunburst · Tree · Prune · Large items"@),
            ("Click / double-click"@, "select / zoom in"@),
            ("Scroll"@, "zoom toward the pointer, and back out"@),
            ("Arrows"@, "move between tiles"@),
            ("Enter / Backspace"@, "zoom in / out"@),
            ("Space, X"@, "mark or unmark"@),
            ("[  ]"@, "fewer / more nested levels"@),
            ("C"@, "review & clean"@),
            ("F5"@, "rescan"@),
        ],
{
    let r: Vec<(&'static str, &'static str)> = vec![
        ("1  2  3  4  5", "Treemap · Sunburst · Tree · Prune · Large items"),
        ("Click / double-click", "select / zoom in"),
        ("Scroll", "zoom toward the pointer, and back out"),
        ("Arrows", "move between tiles"),
        ("Enter / Backspace", "zoom in / out"),
        ("Space, X", "mark or unmark"),
        ("[  ]", "fewer / more nested levels"),
        ("C", "review & clean"),
        ("F5", "rescan"),
    ];
    assert(key_lines(r@) =~= seq![
        ("1  2  3  4  5"@, "Treemap · Sunburst · Tree · Prune · Large items"@),
        ("Click / double-click"@, "select / zoom in"@),
        ("Scroll"@, "zoom toward the pointer, and back out"@),
        ("Arrows"@, "move between tiles"@),
        ("Enter / Backspace"@, "zoom in / out"@),
        ("Space, X"@, "mark or unmark"@),
        ("[  ]"@, "fewer / more nested levels"@),
        ("C"@, "review & clean"@),
        ("F5"@, "rescan"@),
    ]);
    r
}

/// The keys of the terminal interface.
pub fn terminal_keys() -> (r: Vec<(&'static str, &'static str)>)
    ensures
        key_lines(r@) == seq![
            ("1 2 3"@, "treemap · tree · prune dashboard"@),
            ("arrows / hjkl"@, "move (spatially in the treemap)"@),
            ("enter / ⌫"@, "zoom into / out of a directory (or scroll wheel)"@),
            ("space / x"@, "mark a tile, or select a prune suggestion"@),
            ("[  ]"@, "treemap: draw fewer / more nested levels"@),
            ("a  n"@, "prune: select all SAFE / clear selection"@),
            ("c"@, "review everything marked and selected"@),
            ("r  R"@, "re-analyze rules / rescan the disk"@),
            ("q"@, "quit"@),
        ],
{
    let r: Vec<(&'static str, &'static str)> = vec![
        ("1 2 3", "treemap · tree · prune dashboard"),
        ("arrows / hjkl", "move (spatially in the treemap)"),
        ("enter / ⌫", "zoom into / out of a directory (or scroll wheel)"),
        ("space / x", "mark a tile, or select a prune suggestion"),
        ("[  ]", "treemap: draw fewer / more nested levels"),
        ("a  n", "prune: select all SAFE / clear selection"),
        ("c", "review everything marked and selected"),
        ("r  R", "re-analyze rules / rescan the disk"),
        ("q", "quit"),
    ];
    assert(key_lines(r@) =~= seq![
        ("1 2 3"@, "treemap · tree · prune dashboard"@),
        ("arrows / hjkl"@, "move (spatially in the treemap)"@),
        ("enter / ⌫"@, "zoom into / out of a directory (or scroll wheel)"@),
        ("space / x"@, "mark a tile, or select a prune suggestion"@),
        ("[  ]"@, "treemap: draw fewer / more nested levels"@),
        ("a  n"@, "prune: select all SAFE / clear selection"@),
        ("c"@, "review everything marked and selected"@),
        ("r  R"@, "re-analyze rules / rescan the disk"@),
        ("q"@, "quit"@),
    ]);
    r
}

} // verus!
