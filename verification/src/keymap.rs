//! The keymap: which keys run what, mode by mode.

use crate::input::KeyEvent;
use crate::text::same_str;
use vstd::prelude::*;

verus! {

#[derive(Debug, Clone, Copy, PartialEq, Eq, Structural)]
pub enum Mode {
    Normal,
    Select,
    Insert,
}

/// A command a key can run.
#[derive(Debug)]
pub enum MappableCommand {
    /// A command of the command line, with its arguments as they are written.
    Typable { name: String, args: String, doc: String },
    Static { name: String, doc: String },
    /// Keys to be pressed, under the name they are written with: `@mihello<esc>`.
    Macro { name: String, keys: Vec<KeyEvent> },
}

#[verifier::ext_equal]
pub enum CommandView {
    Typable { name: Seq<char>, args: Seq<char>, doc: Seq<char> },
    Static { name: Seq<char>, doc: Seq<char> },
    Macro { name: Seq<char>, keys: Seq<KeyEvent> },
}

impl CommandView {
    pub open spec fn name(self) -> Seq<char> {
        match self {
            CommandView::Typable { name, .. } => name,
            CommandView::Static { name, .. } => name,
            CommandView::Macro { name, .. } => name,
        }
    }

    /// What it does, in words; a macro says its keys.
    pub open spec fn doc(self) -> Seq<char> {
        match self {
            CommandView::Typable { doc, .. } => doc,
            CommandView::Static { doc, .. } => doc,
            CommandView::Macro { name, .. } => name,
        }
    }

    /// The command that leaves a key doing nothing.
    pub open spec fn is_no_op(self) -> bool {
        self.name() == "no_op"@
    }
}

impl DeepView for MappableCommand {
    type V = CommandView;

    open spec fn deep_view(&self) -> CommandView {
        match self {
            MappableCommand::Typable { name, args, doc } => CommandView::Typable {
                name: name@,
                args: args@,
                doc: doc@,
            },
            MappableCommand::Static { name, doc } => CommandView::Static { name: name@, doc: doc@ },
            MappableCommand::Macro { name, keys } => CommandView::Macro { name: name@, keys: keys@ },
        }
    }
}

impl MappableCommand {
    pub fn name(&self) -> (r: &str)
        ensures
            r@ == self.deep_view().name(),
    {
        match self {
            MappableCommand::Typable { name, .. } => name.as_str(),
            MappableCommand::Static { name, .. } => name.as_str(),
            MappableCommand::Macro { name, .. } => name.as_str(),
        }
    }

    pub fn doc(&self) -> (r: &str)
        ensures
            r@ == self.deep_view().doc(),
    {
        match self {
            MappableCommand::Typable { doc, .. } => doc.as_str(),
            MappableCommand::Static { doc, .. } => doc.as_str(),
            MappableCommand::Macro { name, .. } => name.as_str(),
        }
    }

    pub fn is_no_op(&self) -> (r: bool)
        ensures
            r == self.deep_view().is_no_op(),
    {
        same_str(self.name(), "no_op")
    }

    pub fn copy(&self) -> (r: MappableCommand)
        ensures
            r.deep_view() == self.deep_view(),
    {
        match self {
            MappableCommand::Typable { name, args, doc } => MappableCommand::Typable {
                name: name.clone(),
                args: args.clone(),
                doc: doc.clone(),
            },
            MappableCommand::Static { name, doc } => MappableCommand::Static {
                name: name.clone(),
                doc: doc.clone(),
            },
            MappableCommand::Macro { name, keys } => MappableCommand::Macro {
                name: name.clone(),
                keys: copy_keys(keys.as_slice()),
            },
        }
    }
}

pub fn copy_keys(keys: &[KeyEvent]) -> (r: Vec<KeyEvent>)
    ensures
        r@ == keys@,
{
    let mut copies: Vec<KeyEvent> = Vec::new();
    let mut n: usize = 0;
    while n < keys.len()
        invariant
            n <= keys@.len(),
            copies@ == keys@.take(n as int),
        decreases keys@.len() - n,
    {
        copies.push(keys[n]);
        n = n + 1;
        proof {
            assert(copies@ =~= keys@.take(n as int));
        }
    }
    proof {
        assert(keys@.take(n as int) =~= keys@);
    }
    copies
}

pub fn same_keys(a: &[KeyEvent], b: &[KeyEvent]) -> (r: bool)
    ensures
        r == (a@ == b@),
{
    if a.len() != b.len() {
        return false;
    }
    let mut n: usize = 0;
    while n < a.len()
        invariant
            n <= a@.len() == b@.len(),
            forall|i: int| 0 <= i < n ==> a@[i] == b@[i],
        decreases a@.len() - n,
    {
        if a[n] != b[n] {
            return false;
        }
        n = n + 1;
    }
    proof {
        assert(a@ =~= b@);
    }
    true
}

/// What a key leads to: a command, several one after the other, or more keys.
#[derive(Debug)]
pub enum KeyTrie {
    MappableCommand(MappableCommand),
    Sequence(Vec<MappableCommand>),
    Node(KeyTrieNode),
}

/// The keys that can follow, in the order they were written, under the name they share; each
/// key once.
#[derive(Debug)]
pub struct KeyTrieNode {
    pub name: String,
    pub entries: Vec<(KeyEvent, KeyTrie)>,
}

pub enum TrieView {
    Command(CommandView),
    Sequence(Seq<CommandView>),
    Node(Seq<char>, Seq<(KeyEvent, TrieView)>),
}

/// No key stands twice in a node.
pub open spec fn told_apart(entries: Seq<(KeyEvent, TrieView)>) -> bool {
    forall|i: int, j: int|
        0 <= i < j < entries.len() ==> (#[trigger] entries[i]).0 != (#[trigger] entries[j]).0
}

/// No key stands twice in any node of a keymap.
pub open spec fn keys_once(trie: TrieView) -> bool
    decreases trie,
{
    match trie {
        TrieView::Node(_, entries) => told_apart(entries) && forall|i: int|
            0 <= i < entries.len() ==> keys_once((#[trigger] entries[i]).1),
        _ => true,
    }
}

/// What is held of the entries of a keymap in which no key stands twice.
pub proof fn lemma_keys_once(name: Seq<char>, entries: Seq<(KeyEvent, TrieView)>)
    ensures
        keys_once(TrieView::Node(name, entries)) == (told_apart(entries) && forall|i: int|
            0 <= i < entries.len() ==> keys_once((#[trigger] entries[i]).1)),
{
    let trie = TrieView::Node(name, entries);
    assert(trie->Node_1 == entries);
    if keys_once(trie) {
        assert forall|i: int| 0 <= i < entries.len() implies keys_once((#[trigger] entries[i]).1) by {
            assert(keys_once(trie->Node_1[i].1));
        }
    }
}

pub open spec fn trie_view(trie: KeyTrie) -> TrieView
    decreases trie,
{
    match trie {
        KeyTrie::MappableCommand(command) => TrieView::Command(command.deep_view()),
        KeyTrie::Sequence(commands) => TrieView::Sequence(commands.deep_view()),
        KeyTrie::Node(node) => TrieView::Node(
            node.name@,
            Seq::new(
                node.entries@.len(),
                |i: int|
                    if 0 <= i < node.entries@.len() {
                        (node.entries@[i].0, trie_view(node.entries@[i].1))
                    } else {
                        arbitrary()
                    },
            ),
        ),
    }
}

impl DeepView for KeyTrie {
    type V = TrieView;

    open spec fn deep_view(&self) -> TrieView {
        trie_view(*self)
    }
}

/// The entries of a node, each by what it leads to.
pub open spec fn entries_view(entries: Seq<(KeyEvent, KeyTrie)>) -> Seq<(KeyEvent, TrieView)> {
    Seq::new(entries.len(), |i: int| (entries[i].0, trie_view(entries[i].1)))
}

pub proof fn lemma_node_view(node: KeyTrieNode)
    ensures
        trie_view(KeyTrie::Node(node)) == TrieView::Node(
            node.name@,
            entries_view(node.entries@),
        ),
{
    if let TrieView::Node(name, entries) = trie_view(KeyTrie::Node(node)) {
        assert(entries =~= entries_view(node.entries@));
    }
}

/// What an entry leads to is smaller than the node it is in.
pub proof fn lemma_child(trie: KeyTrie, i: int)
    requires
        trie is Node,
        0 <= i < trie->Node_0.entries@.len(),
    ensures
        decreases_to!(trie => trie->Node_0.entries@[i].1),
{
    let node = trie->Node_0;
    assert(decreases_to!(trie => node));
    assert(decreases_to!(node => node.entries));
    assert(decreases_to!(node.entries => node.entries[i]));
    assert(decreases_to!(node.entries[i] => node.entries[i].1));
}

/// The first entry from `i` on that `key` leads to, or the end.
pub open spec fn entry_of(entries: Seq<(KeyEvent, TrieView)>, key: KeyEvent, i: int) -> int
    decreases entries.len() - i,
{
    if i >= entries.len() {
        entries.len() as int
    } else if entries[i].0 == key {
        i
    } else {
        entry_of(entries, key, i + 1)
    }
}

/// What keys pressed one after the other lead to.
pub open spec fn searched(trie: TrieView, keys: Seq<KeyEvent>) -> Option<TrieView>
    decreases keys.len(),
{
    if keys.len() == 0 {
        Some(trie)
    } else {
        match trie {
            TrieView::Node(_, entries) => {
                let at = entry_of(entries, keys[0], 0);
                if at < entries.len() {
                    searched(entries[at].1, keys.subrange(1, keys.len() as int))
                } else {
                    None
                }
            },
            _ => None,
        }
    }
}

pub proof fn lemma_entry_of(entries: Seq<(KeyEvent, TrieView)>, key: KeyEvent, i: int)
    requires
        0 <= i <= entries.len(),
    ensures
        i <= entry_of(entries, key, i) <= entries.len(),
        entry_of(entries, key, i) < entries.len() ==> entries[entry_of(entries, key, i)].0 == key,
        forall|j: int| i <= j < entry_of(entries, key, i) ==> entries[j].0 != key,
    decreases entries.len() - i,
{
    if i < entries.len() && entries[i].0 != key {
        lemma_entry_of(entries, key, i + 1);
    }
}

impl KeyTrieNode {
    /// A node no key follows yet.
    pub fn new() -> (r: KeyTrieNode)
        ensures
            trie_view(KeyTrie::Node(r)) == TrieView::Node(Seq::empty(), Seq::empty()),
    {
        let r: KeyTrieNode = KeyTrieNode { name: String::new(), entries: Vec::new() };
        proof {
            lemma_node_view(r);
            assert(entries_view(r.entries@) =~= Seq::empty());
        }
        r
    }

    /// Where the entry for a key stands, or the end.
    pub fn position(&self, key: KeyEvent) -> (r: usize)
        ensures
            r == entry_of(entries_view(self.entries@), key, 0),
            r <= self.entries@.len(),
    {
        let ghost all = entries_view(self.entries@);
        let mut i: usize = 0;
        while i < self.entries.len()
            invariant
                i <= self.entries@.len(),
                all == entries_view(self.entries@),
                entry_of(all, key, 0) == entry_of(all, key, i as int),
            decreases self.entries@.len() - i,
        {
            if self.entries[i].0 == key {
                return i;
            }
            i = i + 1;
        }
        i
    }
}

impl KeyTrie {
    /// What keys pressed one after the other lead to.
    pub fn search(&self, keys: &[KeyEvent]) -> (r: Option<&KeyTrie>)
        ensures
            match r {
                Some(found) => searched(self.deep_view(), keys@) == Some(found.deep_view()),
                None => searched(self.deep_view(), keys@) is None,
            },
    {
        let mut trie: &KeyTrie = self;
        let mut n: usize = 0;
        proof {
            assert(keys@.subrange(0, keys@.len() as int) =~= keys@);
        }
        while n < keys.len()
            invariant
                n <= keys@.len(),
                searched(self.deep_view(), keys@) == searched(
                    trie.deep_view(),
                    keys@.subrange(n as int, keys@.len() as int),
                ),
            decreases keys@.len() - n,
        {
            proof {
                let rest = keys@.subrange(n as int, keys@.len() as int);
                assert(rest[0] == keys@[n as int]);
                assert(rest.subrange(1, rest.len() as int) =~= keys@.subrange(
                    n + 1,
                    keys@.len() as int,
                ));
            }
            match trie {
                KeyTrie::Node(node) => {
                    proof {
                        lemma_node_view(*node);
                    }
                    let at: usize = node.position(keys[n]);
                    if at == node.entries.len() {
                        return None;
                    }
                    trie = &node.entries[at].1;
                },
                _ => {
                    return None;
                },
            }
            n = n + 1;
        }
        Some(trie)
    }

    pub fn copy(&self) -> (r: KeyTrie)
        ensures
            r.deep_view() == self.deep_view(),
        decreases self,
    {
        match self {
            KeyTrie::MappableCommand(command) => KeyTrie::MappableCommand(command.copy()),
            KeyTrie::Sequence(commands) => {
                let copies: Vec<MappableCommand> = copy_commands(commands);
                KeyTrie::Sequence(copies)
            },
            KeyTrie::Node(node) => {
                let mut entries: Vec<(KeyEvent, KeyTrie)> = Vec::new();
                let mut n: usize = 0;
                while n < node.entries.len()
                    invariant
                        n <= node.entries@.len(),
                        entries@.len() == n,
                        *self == KeyTrie::Node(*node),
                        forall|i: int|
                            0 <= i < n ==> (#[trigger] entries@[i]).0 == node.entries@[i].0
                                && trie_view(entries@[i].1) == trie_view(node.entries@[i].1),
                    decreases node.entries@.len() - n,
                {
                    let entry: &(KeyEvent, KeyTrie) = &node.entries[n];
                    proof {
                        lemma_child(*self, n as int);
                    }
                    let copy: KeyTrie = entry.1.copy();
                    entries.push((entry.0, copy));
                    n = n + 1;
                }
                let r: KeyTrieNode = KeyTrieNode { name: node.name.clone(), entries };
                proof {
                    lemma_node_view(*node);
                    lemma_node_view(r);
                    assert(entries_view(r.entries@) =~= entries_view(node.entries@));
                }
                KeyTrie::Node(r)
            },
        }
    }
}

pub fn copy_commands(commands: &Vec<MappableCommand>) -> (r: Vec<MappableCommand>)
    ensures
        r.deep_view() == commands.deep_view(),
{
    let mut copies: Vec<MappableCommand> = Vec::new();
    let mut n: usize = 0;
    while n < commands.len()
        invariant
            n <= commands@.len(),
            copies@.len() == n,
            forall|i: int|
                0 <= i < n ==> (#[trigger] copies@[i]).deep_view() == commands@[i].deep_view(),
        decreases commands@.len() - n,
    {
        copies.push(commands[n].copy());
        n = n + 1;
    }
    proof {
        assert(copies.deep_view() =~= commands.deep_view());
    }
    copies
}

/// The keymaps of the modes that have one.
#[derive(Debug)]
pub struct Keymaps {
    pub normal: Option<KeyTrie>,
    pub select: Option<KeyTrie>,
    pub insert: Option<KeyTrie>,
}

pub struct KeymapsView {
    pub normal: Option<TrieView>,
    pub select: Option<TrieView>,
    pub insert: Option<TrieView>,
}

impl DeepView for Keymaps {
    type V = KeymapsView;

    open spec fn deep_view(&self) -> KeymapsView {
        KeymapsView {
            normal: self.normal.deep_view(),
            select: self.select.deep_view(),
            insert: self.insert.deep_view(),
        }
    }
}

impl KeymapsView {
    /// No key stands twice in any node of any mode.
    pub open spec fn wf(self) -> bool {
        &&& self.normal matches Some(trie) ==> keys_once(trie)
        &&& self.select matches Some(trie) ==> keys_once(trie)
        &&& self.insert matches Some(trie) ==> keys_once(trie)
    }

    pub open spec fn get(self, mode: Mode) -> Option<TrieView> {
        match mode {
            Mode::Normal => self.normal,
            Mode::Select => self.select,
            Mode::Insert => self.insert,
        }
    }

    /// The keymaps with another one in a mode.
    pub open spec fn with(self, mode: Mode, trie: Option<TrieView>) -> KeymapsView {
        match mode {
            Mode::Normal => KeymapsView { normal: trie, ..self },
            Mode::Select => KeymapsView { select: trie, ..self },
            Mode::Insert => KeymapsView { insert: trie, ..self },
        }
    }
}

impl Keymaps {
    pub fn get(&self, mode: Mode) -> (r: Option<&KeyTrie>)
        ensures
            match r {
                Some(trie) => self.deep_view().get(mode) == Some(trie.deep_view()),
                None => self.deep_view().get(mode) is None,
            },
    {
        match mode {
            Mode::Normal => self.normal.as_ref(),
            Mode::Select => self.select.as_ref(),
            Mode::Insert => self.insert.as_ref(),
        }
    }

    /// Takes the keymap of a mode out.
    pub fn take(&mut self, mode: Mode) -> (r: Option<KeyTrie>)
        ensures
            r.deep_view() == old(self).deep_view().get(mode),
            final(self).deep_view() == old(self).deep_view().with(mode, None),
    {
        match mode {
            Mode::Normal => self.normal.take(),
            Mode::Select => self.select.take(),
            Mode::Insert => self.insert.take(),
        }
    }

    pub fn put(&mut self, mode: Mode, trie: Option<KeyTrie>)
        ensures
            final(self).deep_view() == old(self).deep_view().with(mode, trie.deep_view()),
    {
        match mode {
            Mode::Normal => {
                self.normal = trie;
            },
            Mode::Select => {
                self.select = trie;
            },
            Mode::Insert => {
                self.insert = trie;
            },
        }
    }

    pub fn copy(&self) -> (r: Keymaps)
        ensures
            r.deep_view() == self.deep_view(),
    {
        Keymaps {
            normal: copy_map(&self.normal),
            select: copy_map(&self.select),
            insert: copy_map(&self.insert),
        }
    }
}

fn copy_map(map: &Option<KeyTrie>) -> (r: Option<KeyTrie>)
    ensures
        r.deep_view() == map.deep_view(),
{
    match map {
        Some(trie) => Some(trie.copy()),
        None => None,
    }
}

// ---------------------------------------------------------------------------------------
// Laying one keymap over another
// ---------------------------------------------------------------------------------------

/// One keymap laid over another: what both lead on from is laid over one another in turn, and
/// elsewhere the upper one wins.
pub open spec fn merged_trie(lower: TrieView, upper: TrieView) -> TrieView
    decreases upper, 1nat, 0nat,
{
    match (lower, upper) {
        (TrieView::Node(name, below), TrieView::Node(_, above)) => TrieView::Node(
            name,
            merged_keys(below, above, above.len()),
        ),
        _ => upper,
    }
}

/// The keys of a node with the first `n` of another laid over them.
pub open spec fn merged_keys(
    below: Seq<(KeyEvent, TrieView)>,
    above: Seq<(KeyEvent, TrieView)>,
    n: nat,
) -> Seq<(KeyEvent, TrieView)>
    decreases above, 0nat, n,
{
    if n == 0 || n > above.len() {
        below
    } else {
        let so_far = merged_keys(below, above, (n - 1) as nat);
        let key = above[n - 1].0;
        let at = entry_of(so_far, key, 0);
        if at < so_far.len() {
            so_far.update(at, (key, merged_trie(so_far[at].1, above[n - 1].1)))
        } else {
            so_far.push(above[n - 1])
        }
    }
}

/// One keymap laid over another.
pub fn merge_tries(lower: KeyTrie, upper: KeyTrie) -> (r: KeyTrie)
    ensures
        r.deep_view() == merged_trie(lower.deep_view(), upper.deep_view()),
    decreases upper,
{
    let ghost whole = upper;
    match (lower, upper) {
        (KeyTrie::Node(below), KeyTrie::Node(above)) => {
            let ghost given = above.entries@;
            let ghost under = entries_view(below.entries@);
            let ghost over = entries_view(given);
            proof {
                lemma_node_view(below);
                lemma_node_view(above);
                assert(given.skip(0) =~= given);
            }
            let KeyTrieNode { name, entries: mut out } = below;
            let KeyTrieNode { name: _, entries: mut rest } = above;
            let ghost mut n: nat = 0;
            while rest.len() > 0
                invariant
                    n <= given.len(),
                    whole == upper,
                    whole is Node,
                    given == whole->Node_0.entries@,
                    over == entries_view(given),
                    rest@ == given.skip(n as int),
                    entries_view(out@) == merged_keys(under, over, n),
                decreases rest@.len(),
            {
                let ghost so_far = out@;
                let (key, trie): (KeyEvent, KeyTrie) = rest.remove(0);
                proof {
                    assert((key, trie) == given[n as int]);
                    assert(rest@ =~= given.skip(n + 1 as int));
                    assert(over[n as int] == (key, trie.deep_view()));
                    lemma_child(whole, n as int);
                    lemma_entry_of(entries_view(out@), key, 0);
                }
                let at: usize = find_key(&out, key);
                if at < out.len() {
                    let (_, old): (KeyEvent, KeyTrie) = out.remove(at);
                    let merged: KeyTrie = merge_tries(old, trie);
                    out.insert(at, (key, merged));
                    proof {
                        assert(entries_view(out@) =~= entries_view(so_far).update(
                            at as int,
                            (key, merged.deep_view()),
                        ));
                    }
                } else {
                    out.push((key, trie));
                    proof {
                        assert(entries_view(out@) =~= entries_view(so_far).push(
                            (key, trie.deep_view()),
                        ));
                    }
                }
                proof {
                    n = n + 1;
                    assert(entries_view(out@) =~= merged_keys(under, over, n));
                }
            }
            let node: KeyTrieNode = KeyTrieNode { name, entries: out };
            proof {
                lemma_node_view(node);
            }
            KeyTrie::Node(node)
        },
        (_, upper) => upper,
    }
}

fn find_key(entries: &Vec<(KeyEvent, KeyTrie)>, key: KeyEvent) -> (r: usize)
    ensures
        r == entry_of(entries_view(entries@), key, 0),
        r <= entries@.len(),
{
    let ghost all = entries_view(entries@);
    let mut i: usize = 0;
    while i < entries.len()
        invariant
            i <= entries@.len(),
            all == entries_view(entries@),
            entry_of(all, key, 0) == entry_of(all, key, i as int),
        decreases entries@.len() - i,
    {
        if entries[i].0 == key {
            return i;
        }
        i = i + 1;
    }
    i
}

/// One mode's keymap laid over another's: a mode without one stays without.
pub open spec fn merged_mode(lower: Option<TrieView>, upper: Option<TrieView>) -> Option<TrieView> {
    match (lower, upper) {
        (Some(lower), Some(upper)) => Some(merged_trie(lower, upper)),
        (Some(lower), None) => Some(lower),
        (None, _) => None,
    }
}

/// The keymaps of some modes laid over those of all.
pub open spec fn merged_maps(lower: KeymapsView, upper: KeymapsView) -> KeymapsView {
    KeymapsView {
        normal: merged_mode(lower.normal, upper.normal),
        select: merged_mode(lower.select, upper.select),
        insert: merged_mode(lower.insert, upper.insert),
    }
}

fn merge_mode(lower: Option<KeyTrie>, upper: Option<KeyTrie>) -> (r: Option<KeyTrie>)
    ensures
        r.deep_view() == merged_mode(lower.deep_view(), upper.deep_view()),
{
    match (lower, upper) {
        (Some(lower), Some(upper)) => Some(merge_tries(lower, upper)),
        (Some(lower), None) => Some(lower),
        (None, _) => None,
    }
}

/// Lays the keymaps of some modes over those of all: only the modes there are already.
pub fn merge_keys(keys: &mut Keymaps, over: Keymaps)
    ensures
        final(keys).deep_view() == merged_maps(old(keys).deep_view(), over.deep_view()),
        old(keys).deep_view().wf() && over.deep_view().wf() ==> final(keys).deep_view().wf(),
{
    proof {
        if keys.deep_view().wf() && over.deep_view().wf() {
            lemma_merged_maps_once(keys.deep_view(), over.deep_view());
        }
    }
    let Keymaps { normal, select, insert } = over;
    let lower: Option<KeyTrie> = keys.take(Mode::Normal);
    keys.put(Mode::Normal, merge_mode(lower, normal));
    let lower: Option<KeyTrie> = keys.take(Mode::Select);
    keys.put(Mode::Select, merge_mode(lower, select));
    let lower: Option<KeyTrie> = keys.take(Mode::Insert);
    keys.put(Mode::Insert, merge_mode(lower, insert));
}

/// Laying one keymap over another leaves no key twice.
pub proof fn laying_over_leaves_no_key_twice(lower: TrieView, upper: TrieView)
    requires
        keys_once(lower),
        keys_once(upper),
    ensures
        keys_once(merged_trie(lower, upper)),
    decreases upper, 1nat, 0nat,
{
    if let (TrieView::Node(name, below), TrieView::Node(other, above)) = (lower, upper) {
        lemma_keys_once(name, below);
        lemma_keys_once(other, above);
        assert(upper == TrieView::Node(other, above));
        lemma_merged_keys_once(below, above, above.len());
        lemma_keys_once(name, merged_keys(below, above, above.len()));
    }
}

proof fn lemma_merged_keys_once(
    below: Seq<(KeyEvent, TrieView)>,
    above: Seq<(KeyEvent, TrieView)>,
    n: nat,
)
    requires
        told_apart(below),
        forall|i: int| 0 <= i < below.len() ==> keys_once((#[trigger] below[i]).1),
        forall|i: int| 0 <= i < above.len() ==> keys_once((#[trigger] above[i]).1),
    ensures
        told_apart(merged_keys(below, above, n)),
        forall|i: int|
            0 <= i < merged_keys(below, above, n).len() ==> keys_once(
                (#[trigger] merged_keys(below, above, n)[i]).1,
            ),
    decreases above, 0nat, n,
{
    if n != 0 && n <= above.len() {
        lemma_merged_keys_once(below, above, (n - 1) as nat);
        let so_far = merged_keys(below, above, (n - 1) as nat);
        let key = above[n - 1].0;
        let at = entry_of(so_far, key, 0);
        lemma_entry_of(so_far, key, 0);
        let all = merged_keys(below, above, n);
        if at < so_far.len() {
            assert(keys_once(so_far[at].1) && keys_once(above[n - 1].1));
            laying_over_leaves_no_key_twice(so_far[at].1, above[n - 1].1);
            assert forall|i: int, j: int| 0 <= i < j < all.len() implies (#[trigger] all[i]).0
                != (#[trigger] all[j]).0 by {
                assert(all[i].0 == so_far[i].0 && all[j].0 == so_far[j].0);
            }
            assert forall|i: int| 0 <= i < all.len() implies keys_once((#[trigger] all[i]).1) by {
                if i != at {
                    assert(all[i] == so_far[i]);
                }
            }
        } else {
            assert forall|i: int, j: int| 0 <= i < j < all.len() implies (#[trigger] all[i]).0
                != (#[trigger] all[j]).0 by {
                if j < so_far.len() {
                    assert(all[i] == so_far[i] && all[j] == so_far[j]);
                }
            }
            assert forall|i: int| 0 <= i < all.len() implies keys_once((#[trigger] all[i]).1) by {
                if i < so_far.len() {
                    assert(all[i] == so_far[i]);
                }
            }
        }
    }
}

proof fn lemma_merged_maps_once(lower: KeymapsView, upper: KeymapsView)
    requires
        lower.wf(),
        upper.wf(),
    ensures
        merged_maps(lower, upper).wf(),
{
    if let (Some(below), Some(above)) = (lower.normal, upper.normal) {
        laying_over_leaves_no_key_twice(below, above);
    }
    if let (Some(below), Some(above)) = (lower.select, upper.select) {
        laying_over_leaves_no_key_twice(below, above);
    }
    if let (Some(below), Some(above)) = (lower.insert, upper.insert) {
        laying_over_leaves_no_key_twice(below, above);
    }
}

/// A key the upper keymap runs a command by runs that command in the two laid over one
/// another, and one it does not have does what it did in the lower.
pub proof fn laying_over_keeps_the_other_keys(
    below: Seq<(KeyEvent, TrieView)>,
    above: Seq<(KeyEvent, TrieView)>,
    n: nat,
    key: KeyEvent,
)
    requires
        n <= above.len(),
        told_apart(above),
    ensures
        ({
            let all = merged_keys(below, above, n);
            let was = entry_of(below, key, 0);
            let at = entry_of(all, key, 0);
            let given = entry_of(above.take(n as int), key, 0);
            if given < n {
                at < all.len() && all[at].1 == if was < below.len() {
                    merged_trie(below[was].1, above[given].1)
                } else {
                    above[given].1
                }
            } else if was < below.len() {
                at < all.len() && all[at].1 == below[was].1
            } else {
                at == all.len()
            }
        }),
    decreases n,
{
    let all = merged_keys(below, above, n);
    let longer = above.take(n as int);
    lemma_entry_of(below, key, 0);
    lemma_entry_of(all, key, 0);
    lemma_entry_of(longer, key, 0);
    if n > 0 {
        let m = (n - 1) as nat;
        let shorter = above.take(m as int);
        let so_far = merged_keys(below, above, m);
        let next = above[n - 1].0;
        laying_over_keeps_the_other_keys(below, above, m, key);
        lemma_entry_of(so_far, key, 0);
        lemma_entry_of(so_far, next, 0);
        lemma_entry_of(shorter, key, 0);
        assert(longer =~= shorter.push(above[n - 1]));
        let p = entry_of(so_far, key, 0);
        let q = entry_of(so_far, next, 0);
        assert(forall|i: int| 0 <= i < so_far.len() ==> (#[trigger] all[i]).0 == so_far[i].0);
        lemma_same_entry(shorter, longer, key);
        lemma_same_entry(so_far, all, key);
        let given = entry_of(longer, key, 0);
        if key == next {
            let s = entry_of(shorter, key, 0);
            if s < m {
                assert(shorter[s] == above[s]);
            }
            assert(longer[m as int] == above[m as int]);
            assert(given == m);
            if p < so_far.len() {
                assert(all[p] == (key, merged_trie(so_far[p].1, above[m as int].1)));
            } else {
                assert(all == so_far.push(above[m as int]));
                assert(all[so_far.len() as int].0 == key);
                assert(entry_of(all, key, 0) == so_far.len());
            }
        } else {
            if given < n {
                assert(longer[given] == above[given]);
                assert(given < m);
            }
            if p < so_far.len() {
                assert(all[p] == so_far[p]);
            } else {
                let at = entry_of(all, key, 0);
                if at < all.len() {
                    assert(all[at].0 == key);
                    assert(at == so_far.len());
                    assert(false);
                }
            }
        }
    } else {
        assert(longer.len() == 0);
    }
}

/// Entries that begin with the same keys lead to the same place, where the shorter ones lead
/// anywhere, and else to one behind them.
proof fn lemma_same_entry(
    shorter: Seq<(KeyEvent, TrieView)>,
    longer: Seq<(KeyEvent, TrieView)>,
    key: KeyEvent,
)
    requires
        shorter.len() <= longer.len(),
        forall|i: int| 0 <= i < shorter.len() ==> (#[trigger] longer[i]).0 == shorter[i].0,
    ensures
        entry_of(shorter, key, 0) < shorter.len() ==> entry_of(longer, key, 0) == entry_of(
            shorter,
            key,
            0,
        ),
        entry_of(shorter, key, 0) >= shorter.len() ==> entry_of(longer, key, 0) >= shorter.len(),
{
    lemma_entry_of(shorter, key, 0);
    lemma_entry_of(longer, key, 0);
    let p = entry_of(shorter, key, 0);
    let q = entry_of(longer, key, 0);
    if p < shorter.len() {
        assert(longer[p].0 == key);
        if q < p {
            assert(shorter[q].0 != key);
        }
    } else if q < shorter.len() {
        assert(shorter[q].0 != key);
    }
}

} // verus!
