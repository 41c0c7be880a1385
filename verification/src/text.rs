//! Numbers and symbols as text.
use num_format::{Locale, ToFormattedString};
use vstd::prelude::*;

verus! {

/// The character of a decimal digit.
pub open spec fn digit(d: nat) -> char {
    (48 + d) as char
}

/// The decimal digits of `n`, without leading zeros.
pub open spec fn decimal(n: nat) -> Seq<char>
    decreases n,
{
    if n < 10 {
        seq![digit(n)]
    } else {
        decimal(n / 10).push(digit(n % 10))
    }
}

/// The decimal digits of `n` with a comma before each full group of three.
pub open spec fn grouped(n: nat) -> Seq<char>
    decreases n,
{
    if n < 1000 {
        decimal(n)
    } else {
        grouped(n / 1000) + seq![',', digit(n / 100 % 10), digit(n / 10 % 10), digit(n % 10)]
    }
}

/// `ToString::to_string` of the standard library on a `usize`: its decimal digits, with no
/// sign, padding or leading zeros.
#[verifier::external_body]
pub(crate) fn decimal_text(n: usize) -> (text: String)
    ensures
        text@ == decimal(n as nat),
{
    n.to_string()
}

/// `ToFormattedString::to_formatted_string` of the `num_format` crate with `Locale::en`: the
/// decimal digits in groups of three, counted from the right, with a comma between groups.
#[verifier::external_body]
pub(crate) fn grouped_text(n: usize) -> (text: String)
    ensures
        text@ == grouped(n as nat),
{
    n.to_formatted_string(&Locale::en)
}

/// What a debugger knows of the code at a frame address.
#[derive(Debug)]
pub struct Symbol {
    /// The demangled name.
    pub name: Option<String>,
    /// The source file.
    pub filename: Option<String>,
    /// The line in the source file.
    pub lineno: Option<u32>,
    /// The column in the source file.
    pub colno: Option<u32>,
}

/// The text, or nothing where there is none.
pub open spec fn text_or_empty(text: Option<String>) -> Seq<char> {
    match text {
        Some(text) => text@,
        None => seq![],
    }
}

/// The number, or zero where there is none.
pub open spec fn number_or_zero(n: Option<u32>) -> nat {
    match n {
        Some(n) => n as nat,
        None => 0,
    }
}

impl Symbol {
    /// `name (in file,line:column)`.
    pub open spec fn spec_text(self) -> Seq<char> {
        text_or_empty(self.name) + " (in "@ + text_or_empty(self.filename) + ","@ + decimal(
            number_or_zero(self.lineno),
        ) + ":"@ + decimal(number_or_zero(self.colno)) + ")"@
    }

    /// The symbol as a line of text: `name (in file,line:column)`, with empty texts and zeros for
    /// what is not known.
    pub fn text(&self) -> (text: String)
        ensures
            text@ == self.spec_text(),
    {
        let mut text = match &self.name {
            Some(name) => name.clone(),
            None => String::new(),
        };
        text.append(" (in ");
        match &self.filename {
            Some(filename) => text.append(filename.as_str()),
            None => {},
        }
        text.append(",");
        let line: usize = match self.lineno {
            Some(line) => line as usize,
            None => 0,
        };
        text.append(decimal_text(line).as_str());
        text.append(":");
        let column: usize = match self.colno {
            Some(column) => column as usize,
            None => 0,
        };
        text.append(decimal_text(column).as_str());
        text.append(")");
        assert(text@ =~= self.spec_text());
        text
    }
}

/// The text for a frame address: that of the last of the symbols found there, or the address in
/// decimal where none was found.
pub open spec fn frame_text(frame: usize, symbols: Seq<Symbol>) -> Seq<char> {
    if symbols.len() == 0 {
        decimal(frame as nat)
    } else {
        symbols.last().spec_text()
    }
}

/// Describes a frame address by the symbols that were found there, innermost first.
///
/// An address inside inlined code has several symbols; the last one names the function that was
/// really called.
pub fn describe_frame(frame: usize, symbols: &Vec<Symbol>) -> (text: String)
    ensures
        text@ == frame_text(frame, symbols@),
{
    let n: usize = symbols.len();
    if n == 0 {
        decimal_text(frame)
    } else {
        symbols[n - 1].text()
    }
}

/// `symbols` are the symbols at a frame address of the running program, as a lookup found them.
pub closed spec fn found(frame: usize, symbols: Seq<Symbol>) -> bool {
    exists|list: Vec<Symbol>| #[trigger]
        call_ensures(find_symbols, (frame,), list) && list@ == symbols
}

/// Symbols that were found are all that a lookup of that very frame gave, in its order.
pub(crate) proof fn found_symbols_are_kept(frame: usize, symbols: Seq<Symbol>)
    ensures
        found(frame, symbols) <==> exists|list: Vec<Symbol>| #[trigger]
            call_ensures(find_symbols, (frame,), list) && symbols.len() == list@.len()
                && forall|i: int| 0 <= i < symbols.len() ==> symbols[i] == list@[i],
{
    if exists|list: Vec<Symbol>| #[trigger]
        call_ensures(find_symbols, (frame,), list) && symbols.len() == list@.len() && forall|i: int|
            0 <= i < symbols.len() ==> symbols[i] == list@[i] {
        let list = choose|list: Vec<Symbol>| #[trigger]
            call_ensures(find_symbols, (frame,), list) && symbols.len() == list@.len()
                && forall|i: int| 0 <= i < symbols.len() ==> symbols[i] == list@[i];
        assert(symbols =~= list@);
    }
}

/// `text` may stand for a frame address: it is the text for the symbols that were found there.
pub open spec fn may_name(frame: usize, text: Seq<char>) -> bool {
    exists|symbols: Seq<Symbol>|
        found(frame, symbols) && text == #[trigger] frame_text(frame, symbols)
}

/// Adds a symbol to those that were found so far.
fn add_symbol(
    symbols: &mut Vec<Symbol>,
    name: Option<String>,
    filename: Option<String>,
    lineno: Option<u32>,
    colno: Option<u32>,
)
    ensures
        final(symbols)@ == old(symbols)@.push(Symbol { name, filename, lineno, colno }),
{
    symbols.push(Symbol { name, filename, lineno, colno });
}

/// `backtrace::resolve`, which hands the symbols at a frame address of the running program to
/// [`add_symbol`], the innermost first. Nothing is stated of them: they come from the symbol
/// tables and the debug information of the running program, and there may be none.
#[verifier::external_body]
pub(crate) fn find_symbols(frame: usize) -> (symbols: Vec<Symbol>) {
    let mut symbols: Vec<Symbol> = Vec::new();
    backtrace::resolve(std::ptr::with_exposed_provenance_mut(frame), |s| {
        add_symbol(
            &mut symbols,
            s.name().map(|name| name.to_string()),
            s.filename().map(|path| path.display().to_string()),
            s.lineno(),
            s.colno(),
        )
    });
    symbols
}

/// `malloc_freq.` and the id of a process.
pub open spec fn dir_path(process: nat) -> Seq<char> {
    "malloc_freq."@ + decimal(process)
}

/// `malloc_freq.` and the id of a thread, in a directory.
pub open spec fn file_path(dir: Seq<char>, thread: nat) -> Seq<char> {
    dir + "/malloc_freq."@ + decimal(thread)
}

/// `malloc_freq.` and anything, in a directory.
pub open spec fn pattern_path(dir: Seq<char>) -> Seq<char> {
    dir + "/malloc_freq.*"@
}

/// The directory in which the process with this id leaves its profiles.
pub fn profile_dir(process: u32) -> (path: String)
    ensures
        path@ == dir_path(process as nat),
{
    let mut path = String::new();
    path.append("malloc_freq.");
    path.append(decimal_text(process as usize).as_str());
    assert(path@ =~= dir_path(process as nat));
    path
}

/// The file of one thread's profile in the directory `dir`.
pub fn profile_file(dir: &str, thread: usize) -> (path: String)
    ensures
        path@ == file_path(dir@, thread as nat),
{
    let mut path = String::new();
    path.append(dir);
    path.append("/malloc_freq.");
    path.append(decimal_text(thread).as_str());
    assert(path@ =~= file_path(dir@, thread as nat));
    path
}

/// The file that is handed out in the directory `dir` when `before` were handed out: the next one.
pub open spec fn hands_out(before: nat, dir: Seq<char>, file: Seq<char>, after: nat) -> bool {
    &&& file == file_path(dir, before)
    &&& after == before + 1
}

/// The files for the profiles of a process. Each thread is given one of its own; the ids of
/// threads would not do, since the system may use one again.
pub struct ProfileFiles {
    /// How many were handed out.
    pub handed_out: usize,
}

impl ProfileFiles {
    /// A file in the directory `dir` that was not handed out before, unless all were.
    pub fn next_file(&mut self, dir: &str) -> (file: Option<String>)
        ensures
            match file {
                Some(file) => hands_out(
                    old(self).handed_out as nat,
                    dir@,
                    file@,
                    final(self).handed_out as nat,
                ),
                None => old(self).handed_out == usize::MAX && *final(self) == *old(self),
            },
    {
        if self.handed_out == usize::MAX {
            return None;
        }
        let file = profile_file(dir, self.handed_out);
        self.handed_out = self.handed_out + 1;
        Some(file)
    }
}

/// The pattern that the files of all the profiles in the directory `dir` match.
pub fn profile_pattern(dir: &str) -> (pattern: String)
    ensures
        pattern@ == pattern_path(dir@),
{
    let mut pattern = String::new();
    pattern.append(dir);
    pattern.append("/malloc_freq.*");
    assert(pattern@ =~= pattern_path(dir@));
    pattern
}

} // verus!
