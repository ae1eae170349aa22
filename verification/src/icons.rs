//! Icon selection for directory listings: special directory and file
//! names first, then the case-folded extension.

use vstd::prelude::*;

use crate::strutil::chars_of;

verus! {

/// ASCII-lowercases one character.
pub open spec fn ascii_lower_char(c: char) -> char {
    if c == 'A' {
        'a'
    } else if c == 'B' {
        'b'
    } else if c == 'C' {
        'c'
    } else if c == 'D' {
        'd'
    } else if c == 'E' {
        'e'
    } else if c == 'F' {
        'f'
    } else if c == 'G' {
        'g'
    } else if c == 'H' {
        'h'
    } else if c == 'I' {
        'i'
    } else if c == 'J' {
        'j'
    } else if c == 'K' {
        'k'
    } else if c == 'L' {
        'l'
    } else if c == 'M' {
        'm'
    } else if c == 'N' {
        'n'
    } else if c == 'O' {
        'o'
    } else if c == 'P' {
        'p'
    } else if c == 'Q' {
        'q'
    } else if c == 'R' {
        'r'
    } else if c == 'S' {
        's'
    } else if c == 'T' {
        't'
    } else if c == 'U' {
        'u'
    } else if c == 'V' {
        'v'
    } else if c == 'W' {
        'w'
    } else if c == 'X' {
        'x'
    } else if c == 'Y' {
        'y'
    } else if c == 'Z' {
        'z'
    } else {
        c
    }
}

/// ASCII-lowercases a character sequence.
pub open spec fn ascii_lower(s: Seq<char>) -> Seq<char> {
    Seq::new(s.len(), |i: int| ascii_lower_char(s[i]))
}

/// The index after the last `'.'` of `s`, or `-1` when `s` has no dot.
pub open spec fn after_last_dot(s: Seq<char>) -> int
    decreases s.len(),
{
    if s.len() == 0 {
        -1
    } else if s.last() == '.' {
        s.len() as int
    } else {
        after_last_dot(s.drop_last())
    }
}

/// The icon for a directory of the given name.
pub open spec fn dir_icon_of(name: Seq<char>) -> Seq<char> {
    if name == ".git"@ {
        "\u{e702} "@
    } else if name == "node_modules"@ {
        "\u{e718} "@
    } else if name == "src"@ {
        "\u{f0d09} "@
    } else if name == "target"@ {
        "\u{f487} "@
    } else if name == ".cargo"@ {
        "\u{e7a8} "@
    } else {
        "\u{f07b} "@
    }
}

/// The icon for a special file name, or `None` when the name is ordinary.
pub open spec fn special_icon_of(name: Seq<char>) -> Option<Seq<char>> {
    if name == "Cargo.toml"@ || name == "Cargo.lock"@ {
        Some("\u{e7a8} "@)
    } else if name == "Dockerfile"@ || name == "Containerfile"@ || name
        == "docker-compose.yml"@ || name == "docker-compose.yaml"@ {
        Some("\u{f0868} "@)
    } else if name == ".gitignore"@ || name == ".gitmodules"@ || name == ".gitattributes"@ {
        Some("\u{e702} "@)
    } else if name == "LICENSE"@ || name == "LICENSE-MIT"@ || name == "LICENSE-APACHE"@ {
        Some("\u{f0219} "@)
    } else if name == "Makefile"@ || name == "CMakeLists.txt"@ {
        Some("\u{e779} "@)
    } else if name == "README.md"@ || name == "README"@ {
        Some("\u{f00ba} "@)
    } else if name == ".env"@ || name == ".env.local"@ {
        Some("\u{f462} "@)
    } else if name == "package.json"@ || name == "package-lock.json"@ {
        Some("\u{e718} "@)
    } else if name == "tsconfig.json"@ {
        Some("\u{e628} "@)
    } else {
        None
    }
}

/// The icon for a lowercased file extension.
pub open spec fn ext_icon_of(e: Seq<char>) -> Seq<char> {
    if e == "rs"@ {
        "\u{e7a8} "@
    } else if e == "js"@ || e == "mjs"@ || e == "cjs"@ {
        "\u{e74e} "@
    } else if e == "ts"@ || e == "mts"@ || e == "cts"@ {
        "\u{e628} "@
    } else if e == "jsx"@ || e == "tsx"@ {
        "\u{e7ba} "@
    } else if e == "py"@ || e == "pyi"@ {
        "\u{e73c} "@
    } else if e == "go"@ {
        "\u{e724} "@
    } else if e == "rb"@ {
        "\u{e739} "@
    } else if e == "lua"@ {
        "\u{e620} "@
    } else if e == "c"@ || e == "h"@ {
        "\u{e61e} "@
    } else if e == "cpp"@ || e == "cxx"@ || e == "cc"@ || e == "hpp"@ {
        "\u{e61d} "@
    } else if e == "java"@ {
        "\u{e738} "@
    } else if e == "swift"@ {
        "\u{e755} "@
    } else if e == "kt"@ || e == "kts"@ {
        "\u{e634} "@
    } else if e == "zig"@ {
        "\u{e6a4} "@
    } else if e == "md"@ || e == "mdx"@ {
        "\u{e73e} "@
    } else if e == "json"@ {
        "\u{e60b} "@
    } else if e == "toml"@ {
        "\u{e6b2} "@
    } else if e == "yaml"@ || e == "yml"@ {
        "\u{e6a8} "@
    } else if e == "xml"@ {
        "\u{f05c0} "@
    } else if e == "html"@ || e == "htm"@ {
        "\u{e736} "@
    } else if e == "css"@ || e == "scss"@ || e == "sass"@ || e == "less"@ {
        "\u{e749} "@
    } else if e == "sh"@ || e == "bash"@ || e == "zsh"@ || e == "fish"@ {
        "\u{f489} "@
    } else if e == "zip"@ || e == "tar"@ || e == "gz"@ || e == "bz2"@ || e == "xz"@ || e
        == "7z"@ || e == "rar"@ {
        "\u{f410} "@
    } else if e == "jpg"@ || e == "jpeg"@ || e == "png"@ || e == "gif"@ || e == "bmp"@ || e
        == "svg"@ || e == "webp"@ || e == "ico"@ {
        "\u{f1c5} "@
    } else if e == "mp4"@ || e == "mkv"@ || e == "avi"@ || e == "mov"@ || e == "webm"@ {
        "\u{f03d} "@
    } else if e == "mp3"@ || e == "wav"@ || e == "flac"@ || e == "ogg"@ || e == "aac"@ {
        "\u{f001} "@
    } else if e == "pdf"@ {
        "\u{f1c1} "@
    } else if e == "doc"@ || e == "docx"@ {
        "\u{f0219} "@
    } else if e == "xls"@ || e == "xlsx"@ {
        "\u{f021b} "@
    } else if e == "sql"@ || e == "db"@ || e == "sqlite"@ {
        "\u{f1c0} "@
    } else if e == "lock"@ {
        "\u{f023} "@
    } else if e == "log"@ {
        "\u{f0331} "@
    } else if e == "txt"@ {
        "\u{f15c} "@
    } else if e == "conf"@ || e == "cfg"@ || e == "ini"@ {
        "\u{e615} "@
    } else if e == "vim"@ {
        "\u{e62b} "@
    } else if e == "git"@ {
        "\u{f1d3} "@
    } else {
        "\u{f016} "@
    }
}

/// The icon for an entry: parent row, directory names, special file names,
/// then the file's extension.
pub open spec fn icon_of(name: Seq<char>, is_dir: bool) -> Seq<char> {
    if name == ".."@ {
        "\u{f005e} "@
    } else if is_dir {
        dir_icon_of(name)
    } else if special_icon_of(name) is Some {
        special_icon_of(name)->Some_0
    } else if after_last_dot(name) < 0 {
        "\u{f016} "@
    } else {
        ext_icon_of(ascii_lower(name.skip(after_last_dot(name))))
    }
}

/// Compares a character vector against a literal.
fn eq_lit(v: &Vec<char>, lit: &str) -> (r: bool)
    ensures
        r == (v@ == lit@),
{
    let w = chars_of(lit);
    crate::strutil::chars_eq(v, &w)
}

/// ASCII-lowercases one character.
fn ascii_lower_char_exec(c: char) -> (r: char)
    ensures
        r == ascii_lower_char(c),
{
    if c == 'A' {
        'a'
    } else if c == 'B' {
        'b'
    } else if c == 'C' {
        'c'
    } else if c == 'D' {
        'd'
    } else if c == 'E' {
        'e'
    } else if c == 'F' {
        'f'
    } else if c == 'G' {
        'g'
    } else if c == 'H' {
        'h'
    } else if c == 'I' {
        'i'
    } else if c == 'J' {
        'j'
    } else if c == 'K' {
        'k'
    } else if c == 'L' {
        'l'
    } else if c == 'M' {
        'm'
    } else if c == 'N' {
        'n'
    } else if c == 'O' {
        'o'
    } else if c == 'P' {
        'p'
    } else if c == 'Q' {
        'q'
    } else if c == 'R' {
        'r'
    } else if c == 'S' {
        's'
    } else if c == 'T' {
        't'
    } else if c == 'U' {
        'u'
    } else if c == 'V' {
        'v'
    } else if c == 'W' {
        'w'
    } else if c == 'X' {
        'x'
    } else if c == 'Y' {
        'y'
    } else if c == 'Z' {
        'z'
    } else {
        c
    }
}

/// The position after the last dot of `cs`, or zero when there is none.
fn after_dot_exec(cs: &Vec<char>) -> (r: usize)
    ensures
        r <= cs@.len(),
        r == 0 ==> after_last_dot(cs@) == -1,
        r >= 1 ==> after_last_dot(cs@) == r,
{
    let mut j: usize = cs.len();
    proof {
        assert(cs@.take(cs@.len() as int) =~= cs@);
    }
    while j > 0
        invariant
            j <= cs@.len(),
            after_last_dot(cs@) == after_last_dot(cs@.take(j as int)),
        decreases j,
    {
        proof {
            assert(cs@.take(j as int).drop_last() =~= cs@.take(j - 1));
            assert(cs@.take(j as int).last() == cs@[j - 1]);
        }
        if cs[j - 1] == '.' {
            proof {
                assert(after_last_dot(cs@.take(j as int)) == j);
            }
            return j;
        }
        j = j - 1;
    }
    proof {
        assert(cs@.take(0) =~= Seq::<char>::empty());
    }
    0
}

/// Picks the display icon for an entry of the given name.
pub fn file_icon(name: &str, is_dir: bool) -> (r: &'static str)
    ensures
        r@ == icon_of(name@, is_dir),
{
    let cs = chars_of(name);
    if eq_lit(&cs, "..") {
        return "\u{f005e} ";
    }
    if is_dir {
        if eq_lit(&cs, ".git") {
            return "\u{e702} ";
        }
        if eq_lit(&cs, "node_modules") {
            return "\u{e718} ";
        }
        if eq_lit(&cs, "src") {
            return "\u{f0d09} ";
        }
        if eq_lit(&cs, "target") {
            return "\u{f487} ";
        }
        if eq_lit(&cs, ".cargo") {
            return "\u{e7a8} ";
        }
        return "\u{f07b} ";
    }
    if eq_lit(&cs, "Cargo.toml") || eq_lit(&cs, "Cargo.lock") {
        return "\u{e7a8} ";
    }
    if eq_lit(&cs, "Dockerfile") || eq_lit(&cs, "Containerfile") || eq_lit(
        &cs,
        "docker-compose.yml",
    ) || eq_lit(&cs, "docker-compose.yaml") {
        return "\u{f0868} ";
    }
    if eq_lit(&cs, ".gitignore") || eq_lit(&cs, ".gitmodules") || eq_lit(&cs, ".gitattributes") {
        return "\u{e702} ";
    }
    if eq_lit(&cs, "LICENSE") || eq_lit(&cs, "LICENSE-MIT") || eq_lit(&cs, "LICENSE-APACHE") {
        return "\u{f0219} ";
    }
    if eq_lit(&cs, "Makefile") || eq_lit(&cs, "CMakeLists.txt") {
        return "\u{e779} ";
    }
    if eq_lit(&cs, "README.md") || eq_lit(&cs, "README") {
        return "\u{f00ba} ";
    }
    if eq_lit(&cs, ".env") || eq_lit(&cs, ".env.local") {
        return "\u{f462} ";
    }
    if eq_lit(&cs, "package.json") || eq_lit(&cs, "package-lock.json") {
        return "\u{e718} ";
    }
    if eq_lit(&cs, "tsconfig.json") {
        return "\u{e628} ";
    }
    // Find the position after the last dot.
    let j = after_dot_exec(&cs);
    if j == 0 {
        return "\u{f016} ";
    }
    let mut ext: Vec<char> = Vec::new();
    let mut m: usize = j;
    while m < cs.len()
        invariant
            j <= m <= cs@.len(),
            cs@ == name@,
            j >= 1,
            after_last_dot(name@) == j,
            ext@ == ascii_lower(name@.skip(j as int)).take(m - j),
        decreases cs.len() - m,
    {
        ext.push(ascii_lower_char_exec(cs[m]));
        proof {
            assert(ext@ =~= ascii_lower(name@.skip(j as int)).take(m + 1 - j));
        }
        m = m + 1;
    }
    proof {
        assert(ext@ =~= ascii_lower(name@.skip(j as int)));
    }
    if eq_lit(&ext, "rs") {
        return "\u{e7a8} ";
    }
    if eq_lit(&ext, "js") || eq_lit(&ext, "mjs") || eq_lit(&ext, "cjs") {
        return "\u{e74e} ";
    }
    if eq_lit(&ext, "ts") || eq_lit(&ext, "mts") || eq_lit(&ext, "cts") {
        return "\u{e628} ";
    }
    if eq_lit(&ext, "jsx") || eq_lit(&ext, "tsx") {
        return "\u{e7ba} ";
    }
    if eq_lit(&ext, "py") || eq_lit(&ext, "pyi") {
        return "\u{e73c} ";
    }
    if eq_lit(&ext, "go") {
        return "\u{e724} ";
    }
    if eq_lit(&ext, "rb") {
        return "\u{e739} ";
    }
    if eq_lit(&ext, "lua") {
        return "\u{e620} ";
    }
    if eq_lit(&ext, "c") || eq_lit(&ext, "h") {
        return "\u{e61e} ";
    }
    if eq_lit(&ext, "cpp") || eq_lit(&ext, "cxx") || eq_lit(&ext, "cc") || eq_lit(&ext, "hpp") {
        return "\u{e61d} ";
    }
    if eq_lit(&ext, "java") {
        return "\u{e738} ";
    }
    if eq_lit(&ext, "swift") {
        return "\u{e755} ";
    }
    if eq_lit(&ext, "kt") || eq_lit(&ext, "kts") {
        return "\u{e634} ";
    }
    if eq_lit(&ext, "zig") {
        return "\u{e6a4} ";
    }
    if eq_lit(&ext, "md") || eq_lit(&ext, "mdx") {
        return "\u{e73e} ";
    }
    if eq_lit(&ext, "json") {
        return "\u{e60b} ";
    }
    if eq_lit(&ext, "toml") {
        return "\u{e6b2} ";
    }
    if eq_lit(&ext, "yaml") || eq_lit(&ext, "yml") {
        return "\u{e6a8} ";
    }
    if eq_lit(&ext, "xml") {
        return "\u{f05c0} ";
    }
    if eq_lit(&ext, "html") || eq_lit(&ext, "htm") {
        return "\u{e736} ";
    }
    if eq_lit(&ext, "css") || eq_lit(&ext, "scss") || eq_lit(&ext, "sass") || eq_lit(
        &ext,
        "less",
    ) {
        return "\u{e749} ";
    }
    if eq_lit(&ext, "sh") || eq_lit(&ext, "bash") || eq_lit(&ext, "zsh") || eq_lit(&ext, "fish") {
        return "\u{f489} ";
    }
    if eq_lit(&ext, "zip") || eq_lit(&ext, "tar") || eq_lit(&ext, "gz") || eq_lit(&ext, "bz2")
        || eq_lit(&ext, "xz") || eq_lit(&ext, "7z") || eq_lit(&ext, "rar") {
        return "\u{f410} ";
    }
    if eq_lit(&ext, "jpg") || eq_lit(&ext, "jpeg") || eq_lit(&ext, "png") || eq_lit(&ext, "gif")
        || eq_lit(&ext, "bmp") || eq_lit(&ext, "svg") || eq_lit(&ext, "webp") || eq_lit(
        &ext,
        "ico",
    ) {
        return "\u{f1c5} ";
    }
    if eq_lit(&ext, "mp4") || eq_lit(&ext, "mkv") || eq_lit(&ext, "avi") || eq_lit(&ext, "mov")
        || eq_lit(&ext, "webm") {
        return "\u{f03d} ";
    }
    if eq_lit(&ext, "mp3") || eq_lit(&ext, "wav") || eq_lit(&ext, "flac") || eq_lit(&ext, "ogg")
        || eq_lit(&ext, "aac") {
        return "\u{f001} ";
    }
    if eq_lit(&ext, "pdf") {
        return "\u{f1c1} ";
    }
    if eq_lit(&ext, "doc") || eq_lit(&ext, "docx") {
        return "\u{f0219} ";
    }
    if eq_lit(&ext, "xls") || eq_lit(&ext, "xlsx") {
        return "\u{f021b} ";
    }
    if eq_lit(&ext, "sql") || eq_lit(&ext, "db") || eq_lit(&ext, "sqlite") {
        return "\u{f1c0} ";
    }
    if eq_lit(&ext, "lock") {
        return "\u{f023} ";
    }
    if eq_lit(&ext, "log") {
        return "\u{f0331} ";
    }
    if eq_lit(&ext, "txt") {
        return "\u{f15c} ";
    }
    if eq_lit(&ext, "conf") || eq_lit(&ext, "cfg") || eq_lit(&ext, "ini") {
        return "\u{e615} ";
    }
    if eq_lit(&ext, "vim") {
        return "\u{e62b} ";
    }
    if eq_lit(&ext, "git") {
        return "\u{f1d3} ";
    }
    "\u{f016} "
}

} // verus!
