//! Text and paths of the desktop shell: where an asset file lives in the
//! asset directory, the program's help text, the instructions for binding
//! the capture shortcut and the advice when a screenshot is refused.
use vstd::prelude::*;
use crate::text::{chars_equal, chars_of, copy_range};

verus! {

/// The path of asset `filename` in the asset directory `dir`.
pub fn resolve_asset_path(dir: &str, filename: &str) -> (r: String)
    ensures
        r@ == dir@ + "/"@ + filename@,
{
    let mut out = String::from_str(dir);
    out.append("/");
    out.append(filename);
    out
}

/// The first part of the shortcut instructions, before the executable.
pub open spec fn shortcut_head() -> Seq<char> {
    "Bind a global shortcut (KDE Plasma):\n  System Settings → Keyboard → Shortcuts → Add → Command or Script\n  Command: "@
}

/// The rest of the shortcut instructions, after the executable.
pub open spec fn shortcut_tail() -> Seq<char> {
    " --capture\n  (older Plasma: Custom Shortcuts → Edit → New Global Shortcut → Command/URL)\n\nSuggested keys: Meta+Print, or Ctrl+Alt+S.\nPressing the shortcut captures the focused window and opens the OCR\noverlay on it directly — nothing is written to the screenshot folder,\nso the folder watcher never fires a second viewer for the same image."@
}

/// Human-readable instructions for wiring up the global shortcut that runs
/// executable `exe` with `--capture`.
pub fn shortcut_instructions(exe: &str) -> (r: String)
    ensures
        r@ == shortcut_head() + exe@ + shortcut_tail(),
{
    let mut out = String::from_str(
        "Bind a global shortcut (KDE Plasma):\n  System Settings → Keyboard → Shortcuts → Add → Command or Script\n  Command: ",
    );
    out.append(exe);
    out.append(
        " --capture\n  (older Plasma: Custom Shortcuts → Edit → New Global Shortcut → Command/URL)\n\nSuggested keys: Meta+Print, or Ctrl+Alt+S.\nPressing the shortcut captures the focused window and opens the OCR\noverlay on it directly — nothing is written to the screenshot folder,\nso the folder watcher never fires a second viewer for the same image.",
    );
    out
}


/// The help text of the command-line program named `name`.
pub open spec fn usage_spec(name: &str) -> Seq<char> {
    "InstantJPDict accessibility overlay — OCR and dictionary daemon\n\nUSAGE:\n  "@ + name@ + " [OPTIONS] <IMAGE_PATH>\n  "@ + name@ + " [OPTIONS] --headless <IMAGE_PATH|DIRECTORY> [MORE_IMAGES...]\n  "@ + name@ + "                     Opens the frontend window (no arguments)\n  "@ + name@ + " --watcher [ARGS]    Run the file watcher (blocks until stopped)\n  "@ + name@ + " --capture [OPTIONS] Screenshot the focused window and OCR it\n  "@ + name@ + " --setup-capture     Authorize KWin screenshots for this binary\n  "@ + name@ + " --help              Show this help message\n\nOPTIONS:\n  -h, --headless             Run in headless mode (no GUI window)\n  -f, --font <PATH>          Path to a custom font file for overlay text\n      --font=<PATH>          (alternative syntax)\n  -v, --vert                 Vertical-only recognition (skip horizontal boxes)\n      --hybrid               Hybrid mode: both horizontal and vertical recognition\n  -b, --batch-size <N>       Recognition batch size (default: 10)\n      --batch-size=<N>       (alternative syntax)\n      --det-thresh <F>       Detection threshold 0.01-0.99 (default 0.25)\n      --det-thresh=<F>       (alternative syntax)\n      --det-unclip <F>       DB unclip ratio 0.0-5.0 (default 0.7)\n      --det-unclip=<F>       (alternative syntax)\n\nCAPTURE MODE (for a global shortcut):\n  --capture takes the screenshot itself — the focused window, no\n  picker and no file in ~/Pictures/Screenshots — then opens the OCR\n  viewer on it. Because nothing lands in a watched folder, the file\n  watcher cannot open a second viewer for the same image.\n\n  Run --setup-capture once first: KWin only hands screenshots to\n  binaries whose .desktop file declares\n  X-KDE-DBUS-Restricted-Interfaces=org.kde.KWin.ScreenShot2\n  (the same mechanism Spectacle uses).\n\nFRONTEND WINDOW:\n  Launching with no arguments opens a window with two options:\n    - Launch Settings Window  (dictionary import & configuration)\n    - Launch File Watcher     (monitors ~/Pictures/Screenshots and new\n                              images in /tmp; replaced with\n                              \"Stop File Watcher\" while it is running)\n  It also carries the overlay font choice: a \"Serif font\" checkbox\n  (sans is the default) persisted to settings.json next to\n  dictionary.sqlite, applied to the overlay and dictionary panel on\n  the next launch.\n\nARGUMENTS:\n  <IMAGE_PATH>               Path to a screenshot image for OCR analysis\n                             (headless: a directory, or multiple paths,\n                             are also accepted; line crops + sidecar .txt\n                             files are written next to each source image)\n\nEXAMPLES:\n  "@ + name@ + " screenshot.png\n  "@ + name@ + " --headless --font=~/myfont.ttf image.png\n  "@ + name@ + " --headless screenshots_dir/\n  "@ + name@ + " --headless shot1.png shot2.png shot3.png\n  "@ + name@ + " --watcher --vert\n  "@ + name@ + " --setup-capture       (once; then bind a shortcut to --capture)\n  "@ + name@ + " --capture --vert\n  "@ + name@ + "                     (opens the frontend window)\n\nKEYBOARD SHORTCUTS (when GUI is shown):\n  D / Shift+J                Scroll dictionary down\n  F / Shift+K                Scroll dictionary up\n  Esc / Q                    Close viewer / back out of a selection\n  [ / ]                      Lower / raise DET_UNCLIP by 0.05 (live)\n  - / =                      Lower / raise DET_THRESH by 0.01 (live)\n  R                          Reset detection tuning to startup values\n  F1                         Show/hide the detection tuning HUD\n"@
}

/// The help text of the command-line program named `name`: usage, options,
/// capture mode, the frontend window, arguments, examples and the viewer's
/// keyboard shortcuts.
pub fn usage_text(name: &str) -> (r: String)
    ensures
        r@ == usage_spec(name),
{
    let mut out = String::new();
    out.append("InstantJPDict accessibility overlay — OCR and dictionary daemon\n\nUSAGE:\n  ");
    out.append(name);
    out.append(" [OPTIONS] <IMAGE_PATH>\n  ");
    out.append(name);
    out.append(" [OPTIONS] --headless <IMAGE_PATH|DIRECTORY> [MORE_IMAGES...]\n  ");
    out.append(name);
    out.append("                     Opens the frontend window (no arguments)\n  ");
    out.append(name);
    out.append(" --watcher [ARGS]    Run the file watcher (blocks until stopped)\n  ");
    out.append(name);
    out.append(" --capture [OPTIONS] Screenshot the focused window and OCR it\n  ");
    out.append(name);
    out.append(" --setup-capture     Authorize KWin screenshots for this binary\n  ");
    out.append(name);
    out.append(" --help              Show this help message\n\nOPTIONS:\n  -h, --headless             Run in headless mode (no GUI window)\n  -f, --font <PATH>          Path to a custom font file for overlay text\n      --font=<PATH>          (alternative syntax)\n  -v, --vert                 Vertical-only recognition (skip horizontal boxes)\n      --hybrid               Hybrid mode: both horizontal and vertical recognition\n  -b, --batch-size <N>       Recognition batch size (default: 10)\n      --batch-size=<N>       (alternative syntax)\n      --det-thresh <F>       Detection threshold 0.01-0.99 (default 0.25)\n      --det-thresh=<F>       (alternative syntax)\n      --det-unclip <F>       DB unclip ratio 0.0-5.0 (default 0.7)\n      --det-unclip=<F>       (alternative syntax)\n\nCAPTURE MODE (for a global shortcut):\n  --capture takes the screenshot itself — the focused window, no\n  picker and no file in ~/Pictures/Screenshots — then opens the OCR\n  viewer on it. Because nothing lands in a watched folder, the file\n  watcher cannot open a second viewer for the same image.\n\n  Run --setup-capture once first: KWin only hands screenshots to\n  binaries whose .desktop file declares\n  X-KDE-DBUS-Restricted-Interfaces=org.kde.KWin.ScreenShot2\n  (the same mechanism Spectacle uses).\n\nFRONTEND WINDOW:\n  Launching with no arguments opens a window with two options:\n    - Launch Settings Window  (dictionary import & configuration)\n    - Launch File Watcher     (monitors ~/Pictures/Screenshots and new\n                              images in /tmp; replaced with\n                              \"Stop File Watcher\" while it is running)\n  It also carries the overlay font choice: a \"Serif font\" checkbox\n  (sans is the default) persisted to settings.json next to\n  dictionary.sqlite, applied to the overlay and dictionary panel on\n  the next launch.\n\nARGUMENTS:\n  <IMAGE_PATH>               Path to a screenshot image for OCR analysis\n                             (headless: a directory, or multiple paths,\n                             are also accepted; line crops + sidecar .txt\n                             files are written next to each source image)\n\nEXAMPLES:\n  ");
    out.append(name);
    out.append(" screenshot.png\n  ");
    out.append(name);
    out.append(" --headless --font=~/myfont.ttf image.png\n  ");
    out.append(name);
    out.append(" --headless screenshots_dir/\n  ");
    out.append(name);
    out.append(" --headless shot1.png shot2.png shot3.png\n  ");
    out.append(name);
    out.append(" --watcher --vert\n  ");
    out.append(name);
    out.append(" --setup-capture       (once; then bind a shortcut to --capture)\n  ");
    out.append(name);
    out.append(" --capture --vert\n  ");
    out.append(name);
    out.append("                     (opens the frontend window)\n\nKEYBOARD SHORTCUTS (when GUI is shown):\n  D / Shift+J                Scroll dictionary down\n  F / Shift+K                Scroll dictionary up\n  Esc / Q                    Close viewer / back out of a selection\n  [ / ]                      Lower / raise DET_UNCLIP by 0.05 (live)\n  - / =                      Lower / raise DET_THRESH by 0.01 (live)\n  R                          Reset detection tuning to startup values\n  F1                         Show/hide the detection tuning HUD\n");
    proof {
        assert(out@ =~= usage_spec(name));
    }
    out
}

/// The advice for a refused screenshot: the compositor's D-Bus error name
/// decides which, the executable `exe` is named where the user must run it.
pub open spec fn capture_advice(error_name: Seq<char>, exe: Seq<char>) -> Option<Seq<char>> {
    if error_name == "org.kde.KWin.ScreenShot2.Error.NoAuthorized"@ {
        Some(
            "KWin still refuses the screenshot after registering this binary and refreshing its service cache.\nTry `"@
                + exe + " --setup-capture` again; if it keeps refusing, log out and back in so KWin rebuilds its service cache from scratch."@,
        )
    } else if error_name == "org.freedesktop.DBus.Error.ServiceUnknown"@ {
        Some(
            "KWin's ScreenShot2 D-Bus service is not available.\n--capture currently needs a KDE Plasma session; on Steam Deck game\nmode (gamescope) the file-watcher path still applies."@,
        )
    } else if error_name == "org.kde.KWin.ScreenShot2.Error.NoActiveWindow"@ {
        Some("no window is focused, so there is nothing to capture"@)
    } else {
        None
    }
}

/// What to tell the user when the compositor refuses a screenshot with the
/// D-Bus error `error_name`, for the executable `exe`; `None` for an error
/// with no advice.
pub fn capture_error_message(error_name: &str, exe: &str) -> (r: Option<String>)
    ensures
        match r {
            Some(m) => capture_advice(error_name@, exe@) == Some(m@),
            None => capture_advice(error_name@, exe@) is None,
        },
{
    let name = chars_of(error_name);
    if chars_equal(&name, &chars_of("org.kde.KWin.ScreenShot2.Error.NoAuthorized")) {
        let mut out = String::from_str(
            "KWin still refuses the screenshot after registering this binary and refreshing its service cache.\nTry `",
        );
        out.append(exe);
        out.append(
            " --setup-capture` again; if it keeps refusing, log out and back in so KWin rebuilds its service cache from scratch.",
        );
        Some(out)
    } else if chars_equal(&name, &chars_of("org.freedesktop.DBus.Error.ServiceUnknown")) {
        Some(
            String::from_str(
                "KWin's ScreenShot2 D-Bus service is not available.\n--capture currently needs a KDE Plasma session; on Steam Deck game\nmode (gamescope) the file-watcher path still applies.",
            ),
        )
    } else if chars_equal(&name, &chars_of("org.kde.KWin.ScreenShot2.Error.NoActiveWindow")) {
        Some(String::from_str("no window is focused, so there is nothing to capture"))
    } else {
        None
    }
}

/// `rel` appended to the path `base` as a path joins a relative component:
/// `rel` alone when `base` is empty, with no separator added when `base`
/// already ends in `/`, else after a `/`.
pub open spec fn join_path(base: Seq<char>, rel: Seq<char>) -> Seq<char> {
    if base.len() == 0 {
        rel
    } else if base.last() == '/' {
        base + rel
    } else {
        base + "/"@ + rel
    }
}

/// The path `base` joined with the relative component `rel` (see
/// [`join_path`]).
fn join(base: &str, rel: &str) -> (r: String)
    ensures
        r@ == join_path(base@, rel@),
{
    let cs = chars_of(base);
    if cs.len() == 0 {
        return String::from_str(rel);
    }
    let mut out = String::from_str(base);
    if cs[cs.len() - 1] != '/' {
        out.append("/");
    }
    out.append(rel);
    out
}

/// The file name prefix of every capture this program writes.
pub const CAPTURE_PREFIX: &'static str = "instantjp_capture-";

/// Where captures are written: `accessibility_daemon/captures` under the
/// runtime directory when one is set and not empty, else `captures` under
/// the data directory.
pub fn capture_dir(runtime_dir: Option<&str>, data_dir: &str) -> (r: String)
    ensures
        r@ == match runtime_dir {
            Some(rt) => if rt@.len() > 0 {
                join_path(join_path(rt@, "accessibility_daemon"@), "captures"@)
            } else {
                join_path(data_dir@, "captures"@)
            },
            None => join_path(data_dir@, "captures"@),
        },
{
    match runtime_dir {
        Some(rt) => {
            if chars_of(rt).len() > 0 {
                let base = join(rt, "accessibility_daemon");
                return join(base.as_str(), "captures");
            }
        },
        None => {},
    }
    join(data_dir, "captures")
}

/// Whether a file in the capture directory is due for removal: it carries
/// the capture prefix and is known to be more than a day old (`age_nanos`
/// is `None` when its age cannot be told).
pub fn is_stale_capture(name: &str, age_nanos: Option<u128>) -> (r: bool)
    ensures
        r == ((CAPTURE_PREFIX@.len() <= name@.len() && name@.subrange(0, CAPTURE_PREFIX@.len() as int)
            == CAPTURE_PREFIX@) && match age_nanos {
            Some(age) => age > 86_400_000_000_000,
            None => false,
        }),
{
    let n = chars_of(name);
    let prefix = chars_of(CAPTURE_PREFIX);
    if prefix.len() > n.len() {
        return false;
    }
    let head = copy_range(&n, 0, prefix.len());
    if !chars_equal(&head, &prefix) {
        return false;
    }
    match age_nanos {
        Some(age) => age > 86_400_000_000_000,
        None => false,
    }
}

/// The desktop entry that lets the compositor hand screenshots to the
/// executable `exe`: an application entry, hidden from menus, that runs
/// `exe --capture` and declares the restricted screenshot interface.
pub open spec fn desktop_entry_spec(exe: Seq<char>) -> Seq<char> {
    "[Desktop Entry]\nType=Application\nName=InstantJPDict Capture\nComment=Authorizes the InstantJPDict daemon to take screenshots with KWin\nExec="@
        + exe + " --capture\nTerminal=false\nStartupNotify=false\nNoDisplay=true\nX-KDE-DBUS-Restricted-Interfaces=org.kde.KWin.ScreenShot2\n"@
}

/// The contents of the desktop file that authorizes executable `exe` to
/// take screenshots (see [`desktop_entry_spec`]).
pub fn desktop_entry_contents(exe: &str) -> (r: String)
    ensures
        r@ == desktop_entry_spec(exe@),
{
    let mut out = String::from_str(
        "[Desktop Entry]\nType=Application\nName=InstantJPDict Capture\nComment=Authorizes the InstantJPDict daemon to take screenshots with KWin\nExec=",
    );
    out.append(exe);
    out.append(
        " --capture\nTerminal=false\nStartupNotify=false\nNoDisplay=true\nX-KDE-DBUS-Restricted-Interfaces=org.kde.KWin.ScreenShot2\n",
    );
    out
}

/// Where user-level desktop files live: `applications` under the data home
/// when one is set and not empty, else `.local/share/applications` under the
/// home directory; `None` when neither is set.
pub fn applications_dir(data_home: Option<&str>, home: Option<&str>) -> (r: Option<String>)
    ensures
        match data_home {
            Some(d) if d@.len() > 0 => r matches Some(p) && p@ == join_path(d@, "applications"@),
            _ => match home {
                Some(h) => r matches Some(p) && p@ == join_path(
                    join_path(join_path(h@, ".local"@), "share"@),
                    "applications"@,
                ),
                None => r is None,
            },
        },
{
    match data_home {
        Some(d) => {
            if chars_of(d).len() > 0 {
                return Some(join(d, "applications"));
            }
        },
        None => {},
    }
    match home {
        Some(h) => {
            let local = join(h, ".local");
            let share = join(local.as_str(), "share");
            Some(join(share.as_str(), "applications"))
        },
        None => None,
    }
}

/// The default socket of the shared recognition pipeline:
/// `.local/share/accessibility_daemon/booocr.sock` under the home
/// directory, or `/tmp/booocr.sock` when no home directory is set.
pub fn socket_path(home: Option<&str>) -> (r: String)
    ensures
        r@ == match home {
            Some(h) => join_path(
                join_path(join_path(join_path(h@, ".local"@), "share"@), "accessibility_daemon"@),
                "booocr.sock"@,
            ),
            None => "/tmp/booocr.sock"@,
        },
{
    match home {
        Some(h) => {
            let local = join(h, ".local");
            let share = join(local.as_str(), "share");
            let app = join(share.as_str(), "accessibility_daemon");
            join(app.as_str(), "booocr.sock")
        },
        None => String::from_str("/tmp/booocr.sock"),
    }
}

/// The code of a character with ASCII capitals made small.
pub open spec fn lower_code(c: char) -> u32 {
    if 'A' <= c && c <= 'Z' {
        (c as u32 + 32) as u32
    } else {
        c as u32
    }
}

/// `s`, with its ASCII capital letters made small, is `target`.
pub open spec fn equals_lowercased(s: Seq<char>, target: Seq<char>) -> bool {
    s.len() == target.len() && forall|j: int| 0 <= j < s.len() ==> lower_code(#[trigger] s[j]) == target[j] as u32
}

fn lower_code_of(c: char) -> (r: u32)
    ensures
        r == lower_code(c),
{
    if 'A' <= c && c <= 'Z' {
        c as u32 + 32
    } else {
        c as u32
    }
}

/// Whether `s`, with its ASCII capitals made small, is `target`.
fn lower_equals(s: &Vec<char>, target: &str) -> (r: bool)
    ensures
        r == equals_lowercased(s@, target@),
{
    let t = chars_of(target);
    if s.len() != t.len() {
        return false;
    }
    let mut i: usize = 0;
    while i < s.len()
        invariant
            i <= s.len() == t.len(),
            t@ == target@,
            forall|j: int| 0 <= j < i ==> lower_code(#[trigger] s@[j]) == t@[j] as u32,
        decreases s.len() - i,
    {
        if lower_code_of(s[i]) != t[i] as u32 {
            return false;
        }
        i += 1;
    }
    true
}

/// The file extensions, in any ASCII case, that batch mode reads as images.
pub open spec fn image_extension(ext: Seq<char>) -> bool {
    equals_lowercased(ext, "png"@) || equals_lowercased(ext, "jpg"@) || equals_lowercased(ext, "jpeg"@)
        || equals_lowercased(ext, "bmp"@) || equals_lowercased(ext, "webp"@)
}

/// Whether a file with extension `ext` is an image batch mode reads (see
/// [`image_extension`]).
pub fn is_image_extension(ext: &str) -> (r: bool)
    ensures
        r == image_extension(ext@),
{
    let e = chars_of(ext);
    lower_equals(&e, "png") || lower_equals(&e, "jpg") || lower_equals(&e, "jpeg") || lower_equals(
        &e,
        "bmp",
    ) || lower_equals(&e, "webp")
}

/// Whether a file name is one of the line samples batch mode writes
/// itself, which it skips when reading a directory.
pub fn is_ocr_line_sample(file_name: &str) -> (r: bool)
    ensures
        r == ("ocr_line_"@.len() <= file_name@.len() && file_name@.subrange(0, "ocr_line_"@.len() as int)
            == "ocr_line_"@),
{
    let n = chars_of(file_name);
    let prefix = chars_of("ocr_line_");
    if prefix.len() > n.len() {
        return false;
    }
    chars_equal(&copy_range(&n, 0, prefix.len()), &prefix)
}

} // verus!
