//! What a project had open, so that opening the editor on it again opens the same tabs.

use crate::paths::{file_name, find_file_name};
use crate::text::{append_str, chars, decimal, string, write_number};
use vstd::prelude::*;
use vstd::string::StringSliceAdditionalSpecFns;

verus! {

/// The files a project had open, in the order their tabs were in, and how the screen was
/// split between them.
#[derive(Debug)]
pub struct Session {
    pub files: Vec<String>,
    /// The one that was in front.
    pub focused: Option<String>,
    /// The splits, down to a file and a cursor in each; none when nothing with a file was on
    /// screen.
    pub layout: Option<Pane>,
}

/// A split and what it holds, or one view: a file and where the cursor was in it.
#[derive(Debug)]
pub enum Pane {
    Split {
        split: Split,
        /// Each pane's share of the split, in the order of `panes`; none when the panes share
        /// it evenly.
        sizes: Vec<u32>,
        panes: Vec<Pane>,
    },
    View {
        file: String,
        line: usize,
        column: usize,
        /// The first line on screen, so the file comes back scrolled where it was.
        top: Option<usize>,
    },
}

#[derive(Debug, Clone, Copy, PartialEq, Eq, Structural)]
pub enum Split {
    Vertical,
    Horizontal,
}

#[verifier::ext_equal]
pub struct SessionView {
    pub files: Seq<Seq<char>>,
    pub focused: Option<Seq<char>>,
    pub layout: Option<PaneView>,
}

pub enum PaneView {
    Split { split: Split, sizes: Seq<u32>, panes: Seq<PaneView> },
    View { file: Seq<char>, line: usize, column: usize, top: Option<usize> },
}

pub open spec fn pane_view(pane: Pane) -> PaneView
    decreases pane,
{
    match pane {
        Pane::Split { split, sizes, panes } => PaneView::Split {
            split,
            sizes: sizes@,
            panes: Seq::new(
                panes@.len(),
                |i: int|
                    if 0 <= i < panes@.len() {
                        pane_view(panes@[i])
                    } else {
                        arbitrary()
                    },
            ),
        },
        Pane::View { file, line, column, top } => PaneView::View { file: file@, line, column, top },
    }
}

impl DeepView for Pane {
    type V = PaneView;

    open spec fn deep_view(&self) -> PaneView {
        pane_view(*self)
    }
}

impl DeepView for Session {
    type V = SessionView;

    open spec fn deep_view(&self) -> SessionView {
        SessionView {
            files: self.files.deep_view(),
            focused: self.focused.deep_view(),
            layout: self.layout.deep_view(),
        }
    }
}

pub open spec fn panes_view(panes: Seq<Pane>) -> Seq<PaneView> {
    Seq::new(panes.len(), |i: int| pane_view(panes[i]))
}

pub proof fn lemma_split_view(split: Split, sizes: Vec<u32>, panes: Vec<Pane>)
    ensures
        pane_view(Pane::Split { split, sizes, panes }) == (PaneView::Split {
            split,
            sizes: sizes@,
            panes: panes_view(panes@),
        }),
{
    if let PaneView::Split { panes: seen, .. } = pane_view(Pane::Split { split, sizes, panes }) {
        assert(seen =~= panes_view(panes@));
    }
}

pub proof fn lemma_pane(pane: Pane, i: int)
    requires
        pane is Split,
        0 <= i < pane->panes@.len(),
    ensures
        decreases_to!(pane => pane->panes@[i]),
{
    let panes = pane->panes;
    assert(decreases_to!(pane => panes));
    assert(decreases_to!(panes => panes[i]));
}

// ---------------------------------------------------------------------------------------
// What a session is called
// ---------------------------------------------------------------------------------------

pub const HASH_START: u64 = 0xcbf2_9ce4_8422_2325;

pub const HASH_PRIME: u64 = 0x0000_0100_0000_01b3;

/// A hash of the first `n` bytes.
pub open spec fn hashed(bytes: Seq<u8>, n: nat) -> u64
    decreases n,
{
    if n == 0 {
        HASH_START
    } else {
        (hashed(bytes, (n - 1) as nat) ^ bytes[n - 1] as u64).wrapping_mul(HASH_PRIME)
    }
}

/// A number's digit to the base of sixteen.
pub open spec fn hex_digit(n: int) -> char {
    if n < 10 {
        ('0' as u32 + n) as char
    } else {
        ('a' as u32 + (n - 10)) as char
    }
}

/// The last `count` digits of a number to the base of sixteen.
pub open spec fn hex(n: nat, count: nat) -> Seq<char>
    decreases count,
{
    if count == 0 {
        Seq::empty()
    } else {
        hex(n / 16, (count - 1) as nat).push(hex_digit((n % 16) as int))
    }
}

/// The name of a project's session: the name of its folder, and a hash of the whole path.
pub open spec fn key_of(path: Seq<u8>, name: Option<Seq<char>>) -> Seq<char> {
    (match name {
        Some(name) => name,
        None => "workspace"@,
    }) + "-"@ + hex(hashed(path, path.len()) as nat, 16)
}

fn hash(bytes: &[u8]) -> (r: u64)
    ensures
        r == hashed(bytes@, bytes@.len()),
{
    let mut value: u64 = HASH_START;
    let mut n: usize = 0;
    while n < bytes.len()
        invariant
            n <= bytes@.len(),
            value == hashed(bytes@, n as nat),
        decreases bytes@.len() - n,
    {
        value = (value ^ (bytes[n] as u64)).wrapping_mul(HASH_PRIME);
        n = n + 1;
    }
    value
}

fn write_hex(out: &mut Vec<char>, n: u64, count: usize)
    ensures
        final(out)@ == old(out)@ + hex(n as nat, count as nat),
    decreases count,
{
    if count == 0 {
        proof {
            assert(out@ =~= out@ + Seq::<char>::empty());
        }
        return ;
    }
    write_hex(out, n / 16, count - 1);
    let digit: u8 = (n % 16) as u8;
    let c: char = if digit < 10 {
        (48u8 + digit) as char
    } else {
        (97u8 + (digit - 10)) as char
    };
    let ghost before = out@;
    out.push(c);
    proof {
        assert(c == hex_digit((n as nat % 16) as int));
        assert(out@ =~= old(out)@ + hex(n as nat, count as nat));
    }
}

/// A stable name for a project, by the bytes of its path and the name of its own folder where
/// it has one that is a text: two projects whose folders are called the same are not one
/// session.
pub fn key_named(path: &[u8], name: Option<&str>) -> (r: String)
    ensures
        r@ == key_of(path@, name.deep_view()),
{
    let mut out: Vec<char> = Vec::new();
    match name {
        Some(name) => {
            append_str(&mut out, name);
        },
        None => {
            append_str(&mut out, "workspace");
        },
    }
    append_str(&mut out, "-");
    let value: u64 = hash(path);
    write_hex(&mut out, value, 16);
    proof {
        assert(out@ =~= key_of(path@, name.deep_view()));
    }
    string(out.as_slice())
}

/// A stable name for a project: its own folder's, and a hash of the whole path, so that two
/// projects whose folders are called the same are not one session.
pub fn key(workspace: &str) -> (r: String)
    ensures
        r@ == key_of(workspace.spec_bytes(), file_name(workspace@)),
{
    match find_file_name(workspace) {
        Some(name) => key_named(workspace.as_bytes(), Some(name.as_str())),
        None => key_named(workspace.as_bytes(), None),
    }
}

/// The file the session of a project is kept in, by the project's key and in the directory of
/// the sessions.
pub fn file_of(key: &str) -> (r: String)
    ensures
        r@ == key@ + ".toml"@,
{
    let mut out: Vec<char> = chars(key);
    append_str(&mut out, ".toml");
    string(out.as_slice())
}

/// The file a session is written to before it is renamed, by the project's key and in the same
/// directory, so another editor reading it never sees half: each process has its own.
pub fn temporary_of(key: &str, process: u32) -> (r: String)
    ensures
        r@ == "."@ + key@ + "."@ + decimal(process as nat) + ".toml"@,
{
    let mut out: Vec<char> = chars(".");
    append_str(&mut out, key);
    append_str(&mut out, ".");
    write_number(&mut out, process as u64);
    append_str(&mut out, ".toml");
    string(out.as_slice())
}

/// The file a project's session is kept in, by its name in the directory of the sessions.
pub fn session_file(workspace: &str) -> (r: String)
    ensures
        r@ == key_of(workspace.spec_bytes(), file_name(workspace@)) + ".toml"@,
{
    file_of(key(workspace).as_str())
}

/// The file a session is written to before it is renamed, by its name in the same directory.
pub fn temporary_file(workspace: &str, process: u32) -> (r: String)
    ensures
        r@ == "."@ + key_of(workspace.spec_bytes(), file_name(workspace@)) + "."@ + decimal(
            process as nat,
        ) + ".toml"@,
{
    temporary_of(key(workspace).as_str(), process)
}

proof fn lemma_digits(p: int, q: int)
    requires
        0 <= p < 16,
        0 <= q < 16,
        hex_digit(p) == hex_digit(q),
    ensures
        p == q,
{
    let a: u32 = hex_digit(p) as u32;
    let b: u32 = hex_digit(q) as u32;
    assert(a == if p < 10 {
        48 + p
    } else {
        87 + p
    });
    assert(b == if q < 10 {
        48 + q
    } else {
        87 + q
    });
}

proof fn lemma_hex(a: nat, b: nat, count: nat)
    requires
        hex(a, count) == hex(b, count),
    ensures
        count > 0 ==> a % 16 == b % 16 && hex(a / 16, (count - 1) as nat) == hex(
            b / 16,
            (count - 1) as nat,
        ),
        hex(a, count).len() == count,
    decreases count,
{
    if count > 0 {
        let x = hex(a / 16, (count - 1) as nat);
        let y = hex(b / 16, (count - 1) as nat);
        assert(hex(a, count).drop_last() =~= x);
        assert(hex(b, count).drop_last() =~= y);
        assert(hex(a, count).last() == hex(b, count).last());
        let p = (a % 16) as int;
        let q = (b % 16) as int;
        assert(hex(a, count) == x.push(hex_digit(p)));
        assert(hex(b, count) == y.push(hex_digit(q)));
        assert(x.push(hex_digit(p)).last() == hex_digit(p));
        assert(y.push(hex_digit(q)).last() == hex_digit(q));
        lemma_digits(p, q);
        lemma_hex(a / 16, b / 16, (count - 1) as nat);
    }
}

proof fn lemma_hex_len(a: nat, count: nat)
    ensures
        hex(a, count).len() == count,
    decreases count,
{
    if count > 0 {
        lemma_hex_len(a / 16, (count - 1) as nat);
    }
}

/// Numbers of sixteen digits with the same digits are the same.
proof fn lemma_hex_same(a: nat, b: nat, count: nat, bound: nat)
    requires
        hex(a, count) == hex(b, count),
        a < bound,
        b < bound,
        bound <= vstd::arithmetic::power::pow(16, count),
    ensures
        a == b,
    decreases count,
{
    vstd::arithmetic::power::lemma_pow0(16);
    if count == 0 {
    } else {
        lemma_hex(a, b, count);
        let m = (count - 1) as nat;
        let less = vstd::arithmetic::power::pow(16, m) as nat;
        vstd::arithmetic::power::lemma_pow_positive(16, m);
        assert(vstd::arithmetic::power::pow(16, count) == 16 * less) by {
            reveal(vstd::arithmetic::power::pow);
        }
        assert(a / 16 < less && b / 16 < less);
        lemma_hex_same(a / 16, b / 16, m, less);
    }
}

/// Two projects share a session only where both the names of their folders and the hashes of
/// their paths are the same.
pub proof fn sessions_are_told_apart(
    one: Seq<u8>,
    other: Seq<u8>,
    name: Option<Seq<char>>,
    other_name: Option<Seq<char>>,
)
    requires
        key_of(one, name) == key_of(other, other_name),
    ensures
        hashed(one, one.len()) == hashed(other, other.len()),
        name is Some && other_name is Some ==> name == other_name,
{
    let a = hashed(one, one.len()) as nat;
    let b = hashed(other, other.len()) as nat;
    let left = key_of(one, name);
    let right = key_of(other, other_name);
    lemma_hex_len(a, 16);
    lemma_hex_len(b, 16);
    reveal_strlit("-");
    assert(left.skip(left.len() - 16) =~= hex(a, 16));
    assert(right.skip(right.len() - 16) =~= hex(b, 16));
    assert(vstd::arithmetic::power::pow(16, 16) == 0x1_0000_0000_0000_0000int) by {
        reveal(vstd::arithmetic::power::pow);
        reveal_with_fuel(vstd::arithmetic::power::pow, 17);
    }
    lemma_hex_same(a, b, 16, 0x1_0000_0000_0000_0000nat);
    if name is Some && other_name is Some {
        assert(left.take(left.len() - 17) =~= name->0);
        assert(right.take(right.len() - 17) =~= other_name->0);
    }
}

} // verus!
