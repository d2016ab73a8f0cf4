//! The tray menu: its items, their labels, what a click means, and the
//! built-in bell icon.

use vstd::prelude::*;
use vstd::arithmetic::div_mod::lemma_fundamental_div_mod_converse;
use crate::text::same_text;

verus! {

/// An item of the tray menu that was clicked.
#[derive(Debug, Clone, Copy, PartialEq, Eq, Structural)]
pub enum TrayMenuEvent {
    ToggleAutoStart,
    OpenConfig,
    OpenLogsDir,
    Exit,
}

/// The fixed id of each menu item.
pub open spec fn menu_id_of(e: TrayMenuEvent) -> Seq<char> {
    match e {
        TrayMenuEvent::ToggleAutoStart => "toggle_autostart"@,
        TrayMenuEvent::OpenConfig => "open_config"@,
        TrayMenuEvent::OpenLogsDir => "open_logs"@,
        TrayMenuEvent::Exit => "exit"@,
    }
}

/// The fixed id of the menu item for `e`.
pub fn menu_id(e: TrayMenuEvent) -> (r: &'static str)
    ensures
        r@ == menu_id_of(e),
{
    match e {
        TrayMenuEvent::ToggleAutoStart => "toggle_autostart",
        TrayMenuEvent::OpenConfig => "open_config",
        TrayMenuEvent::OpenLogsDir => "open_logs",
        TrayMenuEvent::Exit => "exit",
    }
}

/// The menu item whose id is `id`, if any.
pub fn event_for_menu_id(id: &str) -> (r: Option<TrayMenuEvent>)
    ensures
        r matches Some(e) ==> menu_id_of(e) == id@,
        r is None ==> forall|e: TrayMenuEvent| menu_id_of(e) != id@,
{
    if same_text(id, menu_id(TrayMenuEvent::ToggleAutoStart)) {
        Some(TrayMenuEvent::ToggleAutoStart)
    } else if same_text(id, menu_id(TrayMenuEvent::OpenConfig)) {
        Some(TrayMenuEvent::OpenConfig)
    } else if same_text(id, menu_id(TrayMenuEvent::OpenLogsDir)) {
        Some(TrayMenuEvent::OpenLogsDir)
    } else if same_text(id, menu_id(TrayMenuEvent::Exit)) {
        Some(TrayMenuEvent::Exit)
    } else {
        proof {
            assert forall|e: TrayMenuEvent| menu_id_of(e) != id@ by {
                match e {
                    TrayMenuEvent::ToggleAutoStart => {},
                    TrayMenuEvent::OpenConfig => {},
                    TrayMenuEvent::OpenLogsDir => {},
                    TrayMenuEvent::Exit => {},
                }
            }
        }
        None
    }
}

/// The label of each menu item; the autostart item names the action it
/// takes and the current state.
pub open spec fn menu_label_of(e: TrayMenuEvent, autostart_enabled: bool) -> Seq<char> {
    match e {
        TrayMenuEvent::ToggleAutoStart => if autostart_enabled {
            "自動起動を無効化 (現在: 有効)"@
        } else {
            "自動起動を有効化 (現在: 無効)"@
        },
        TrayMenuEvent::OpenConfig => "設定ファイルを開く"@,
        TrayMenuEvent::OpenLogsDir => "ログディレクトリを開く"@,
        TrayMenuEvent::Exit => "終了"@,
    }
}

/// The label of the menu item for `e`.
pub fn menu_label(e: TrayMenuEvent, autostart_enabled: bool) -> (r: &'static str)
    ensures
        r@ == menu_label_of(e, autostart_enabled),
{
    match e {
        TrayMenuEvent::ToggleAutoStart => if autostart_enabled {
            "自動起動を無効化 (現在: 有効)"
        } else {
            "自動起動を有効化 (現在: 無効)"
        },
        TrayMenuEvent::OpenConfig => "設定ファイルを開く",
        TrayMenuEvent::OpenLogsDir => "ログディレクトリを開く",
        TrayMenuEvent::Exit => "終了",
    }
}

/// What the host does for a click on the menu.
#[derive(Debug, Clone, Copy, PartialEq, Eq, Structural)]
pub enum TrayAction {
    /// Turn autostart on or off.
    SetAutoStart(bool),
    OpenConfig,
    OpenLogsDir,
    Exit,
}

/// The action for a click on `event`, autostart being `autostart_enabled`:
/// the autostart item flips the current state.
pub fn action_for(event: TrayMenuEvent, autostart_enabled: bool) -> (r: TrayAction)
    ensures
        r == match event {
            TrayMenuEvent::ToggleAutoStart => TrayAction::SetAutoStart(!autostart_enabled),
            TrayMenuEvent::OpenConfig => TrayAction::OpenConfig,
            TrayMenuEvent::OpenLogsDir => TrayAction::OpenLogsDir,
            TrayMenuEvent::Exit => TrayAction::Exit,
        },
{
    match event {
        TrayMenuEvent::ToggleAutoStart => TrayAction::SetAutoStart(!autostart_enabled),
        TrayMenuEvent::OpenConfig => TrayAction::OpenConfig,
        TrayMenuEvent::OpenLogsDir => TrayAction::OpenLogsDir,
        TrayMenuEvent::Exit => TrayAction::Exit,
    }
}

/// Width and height of the built-in icon, in pixels.
pub const ICON_SIZE: u32 = 16;

/// The colour of pixel (`x`, `y`) of the built-in bell icon, as red, green,
/// blue and alpha: a yellow centre, a white ring, a faint rim, the rest clear.
/// Distances are measured from (8, 8), compared squared.
pub open spec fn bell_color(x: int, y: int) -> (u8, u8, u8, u8) {
    let d2 = (x - 8) * (x - 8) + (y - 8) * (y - 8);
    if d2 <= 2 {
        (255, 200, 100, 255)
    } else if 9 <= d2 <= 36 {
        (255, 255, 255, 255)
    } else if 36 < d2 <= 49 {
        (200, 200, 200, 180)
    } else {
        (0, 0, 0, 0)
    }
}

pub open spec fn channel(c: (u8, u8, u8, u8), k: int) -> u8 {
    if k == 0 {
        c.0
    } else if k == 1 {
        c.1
    } else if k == 2 {
        c.2
    } else {
        c.3
    }
}

/// Byte `j` of the icon's pixels, row by row, four bytes per pixel.
pub open spec fn icon_byte(j: int) -> u8 {
    let p = j / 4;
    channel(bell_color(p % 16, p / 16), j % 4)
}

proof fn lemma_icon_index(x: int, y: int, k: int)
    requires
        0 <= x < 16,
        0 <= y < 16,
        0 <= k < 4,
    ensures
        (64 * y + 4 * x + k) / 4 == 16 * y + x,
        (64 * y + 4 * x + k) % 4 == k,
        (16 * y + x) % 16 == x,
        (16 * y + x) / 16 == y,
{
    lemma_fundamental_div_mod_converse(64 * y + 4 * x + k, 4, 16 * y + x, k);
    lemma_fundamental_div_mod_converse(16 * y + x, 16, y, x);
}

/// The pixels of the built-in bell icon, 16 by 16, four bytes (RGBA) each.
pub fn fallback_icon_rgba() -> (r: Vec<u8>)
    ensures
        r@.len() == 1024,
        forall|j: int| 0 <= j < 1024 ==> r@[j] == icon_byte(j),
{
    let mut out: Vec<u8> = Vec::new();
    let mut y: i64 = 0;
    while y < 16
        invariant
            0 <= y <= 16,
            out@.len() == 64 * y,
            forall|j: int| 0 <= j < out@.len() ==> out@[j] == icon_byte(j),
        decreases 16 - y,
    {
        let mut x: i64 = 0;
        while x < 16
            invariant
                0 <= y < 16,
                0 <= x <= 16,
                out@.len() == 64 * y + 4 * x,
                forall|j: int| 0 <= j < out@.len() ==> out@[j] == icon_byte(j),
            decreases 16 - x,
        {
            let dx: i64 = x - 8;
            let dy: i64 = y - 8;
            assert(0 <= dx * dx <= 64) by (nonlinear_arith)
                requires
                    -8 <= dx <= 8,
            ;
            assert(0 <= dy * dy <= 64) by (nonlinear_arith)
                requires
                    -8 <= dy <= 8,
            ;
            let d2 = dx * dx + dy * dy;
            let c: (u8, u8, u8, u8) = if d2 <= 2 {
                (255, 200, 100, 255)
            } else if 9 <= d2 && d2 <= 36 {
                (255, 255, 255, 255)
            } else if 36 < d2 && d2 <= 49 {
                (200, 200, 200, 180)
            } else {
                (0, 0, 0, 0)
            };
            let ghost base = out@.len() as int;
            proof {
                assert(c == bell_color(x as int, y as int));
                lemma_icon_index(x as int, y as int, 0);
                lemma_icon_index(x as int, y as int, 1);
                lemma_icon_index(x as int, y as int, 2);
                lemma_icon_index(x as int, y as int, 3);
            }
            out.push(c.0);
            out.push(c.1);
            out.push(c.2);
            out.push(c.3);
            proof {
                assert forall|j: int| 0 <= j < out@.len() implies out@[j] == icon_byte(j) by {
                    if j >= base {
                        assert(j == 64 * y + 4 * x + (j - base));
                    }
                }
            }
            x = x + 1;
        }
        y = y + 1;
    }
    out
}

/// Byte `j` of the plain icon: white at half opacity.
pub open spec fn square_byte(j: int) -> u8 {
    if j % 4 == 3 {
        128
    } else {
        255
    }
}

/// The pixels of a plain 16 by 16 icon, white at half opacity, for when the
/// bell icon is refused.
pub fn plain_icon_rgba() -> (r: Vec<u8>)
    ensures
        r@.len() == 1024,
        forall|j: int| 0 <= j < 1024 ==> r@[j] == square_byte(j),
{
    let mut out: Vec<u8> = Vec::new();
    let mut i: usize = 0;
    while i < 1024
        invariant
            i <= 1024,
            out@.len() == i,
            forall|j: int| 0 <= j < i ==> out@[j] == square_byte(j),
        decreases 1024 - i,
    {
        out.push(if i % 4 == 3 { 128 } else { 255 });
        i = i + 1;
    }
    out
}

} // verus!
