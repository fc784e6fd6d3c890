use vstd::prelude::*;

use crate::parser::{
    END, PModel, Parser, init_model, lemma_accept_p1, offsets_monotonic, p1_inv, spec_accept,
};
use crate::tree::{Node, Root, RootM, add_spec, exp_groups, root_wf};

verus! {

use vstd::string::StrSliceExecFns;

/// One structured callback from the event parser to its consumer.
///
/// The parser turns the raw character stream into a flat stream of these
/// events; a consumer such as the tree builder folds them into its own
/// result value.
pub enum Event {
    /// A new entry begins at the given depth offset.
    BeginKey { offset: usize },
    /// One character of the current entry's key.
    KeyChar { c: char },
    /// The current entry's key is complete.
    EndKey,
    /// The current entry's text begins.
    BeginText,
    /// One character of the current entry's text.
    TextChar { c: char },
    /// The current text value is complete and a further one begins under
    /// the same key and offset.
    NextArraySlot,
    /// The current entry's text is complete.
    EndText,
    /// A malformed character was seen at the given row and column.
    SyntaxError { row: usize, col: usize },
}

pub open spec fn key_ev(c: char) -> Event {
    Event::KeyChar { c }
}

pub open spec fn text_ev(c: char) -> Event {
    Event::TextChar { c }
}

/// Actions taken while parsing the notation.
///
/// The parser drives these callbacks in entry order: an entry begins with
/// `pre_key`, its key characters follow, `post_key` closes the key,
/// `pre_text` opens the text, and `post_text` closes it, also at end of
/// stream and on error-driven resynchronization.
///
/// An implementor records every accepted callback in the ghost sequence
/// `events`, so that the parser's contract can state exactly which events a
/// given input produces.
pub trait Contents: Sized {
    /// Result type.
    type Item;

    /// The callbacks this consumer has accepted so far, in order.
    spec fn events(&self) -> Seq<Event>;

    /// The consumer's internal consistency; the parser preserves it across
    /// every callback.
    spec fn inv(&self) -> bool;

    /// Get the result.
    fn get(self) -> Self::Item
        requires
            self.inv(),
    ;

    /// Accept the entry's offset and prepare to accept its key.
    fn pre_key(&mut self, offset: usize)
        requires
            old(self).inv(),
        ensures
            final(self).inv(),
            final(self).events() == old(self).events().push(Event::BeginKey { offset }),
    ;

    /// Accept one character of the key.
    fn key(&mut self, c: char)
        requires
            old(self).inv(),
        ensures
            final(self).inv(),
            final(self).events() == old(self).events().push(key_ev(c)),
    ;

    /// End of the key.
    fn post_key(&mut self)
        requires
            old(self).inv(),
        ensures
            final(self).inv(),
            final(self).events() == old(self).events().push(Event::EndKey),
    ;

    /// Prepare to accept text.
    fn pre_text(&mut self)
        requires
            old(self).inv(),
        ensures
            final(self).inv(),
            final(self).events() == old(self).events().push(Event::BeginText),
    ;

    /// Accept one character of the text.
    fn text(&mut self, c: char)
        requires
            old(self).inv(),
        ensures
            final(self).inv(),
            final(self).events() == old(self).events().push(text_ev(c)),
    ;

    /// Finish the current text value and begin the next one in the array.
    fn text_array(&mut self)
        requires
            old(self).inv(),
        ensures
            final(self).inv(),
            final(self).events() == old(self).events().push(Event::NextArraySlot),
    ;

    /// End of the text.
    fn post_text(&mut self)
        requires
            old(self).inv(),
        ensures
            final(self).inv(),
            final(self).events() == old(self).events().push(Event::EndText),
    ;

    /// A wrong character at the given row and column.
    fn error(&mut self, row: usize, n: usize)
        requires
            old(self).inv(),
        ensures
            final(self).inv(),
            final(self).events() == old(self).events().push(
                Event::SyntaxError { row, col: n },
            ),
    ;
}

/// Result object: one node of the parsed tree.
#[derive(Debug)]
pub struct Target {
    pub name: String,
    pub text: Vec<String>,
    pub value: Vec<Target>,
}

/// The mathematical value of a `Target`: its name, its text values, and its
/// children, as sequences of characters.
pub ghost struct TargetM {
    pub name: Seq<char>,
    pub text: Seq<Seq<char>>,
    pub value: Seq<TargetM>,
}

pub open spec fn str_view(s: String) -> Seq<char> {
    s@
}

pub open spec fn strs_view(v: Seq<String>) -> Seq<Seq<char>> {
    Seq::new(v.len(), |i: int| str_view(v[i]))
}

pub open spec fn target_view(t: Target) -> TargetM
    decreases t, 1nat,
{
    TargetM { name: t.name@, text: strs_view(t.text@), value: targets_view(t.value@) }
}

pub open spec fn targets_view(v: Seq<Target>) -> Seq<TargetM>
    decreases v, 0nat,
{
    if v.len() == 0 {
        Seq::empty()
    } else {
        targets_view(v.drop_last()).push(target_view(v.last()))
    }
}

impl Target {
    /// A node with the given name and no text and no children.
    pub fn new(name: String) -> (t: Target)
        ensures
            t.name@ == name@,
            t.text@.len() == 0,
            t.value@.len() == 0,
    {
        Target { name, text: Vec::new(), value: Vec::new() }
    }
}

/// The tree builder's state as the contracts speak of it: the tree built so
/// far, the current entry's offset, key and text accumulators, and the
/// reported error positions.
pub ghost struct BModel {
    pub root: RootM,
    pub offset: usize,
    pub key: Seq<char>,
    pub text: Seq<char>,
    pub errors: Seq<(usize, usize)>,
}

pub open spec fn binit() -> BModel {
    BModel {
        root: RootM { nodes: Seq::empty(), tops: Seq::empty(), last: None },
        offset: 0,
        key: Seq::empty(),
        text: Seq::empty(),
        errors: Seq::empty(),
    }
}

/// How one callback changes the builder: begin-key records the offset and
/// clears the key; key and text characters accumulate; end-text and
/// next-array-slot attach one entry to the tree and clear the text; an
/// error is recorded with its position.
pub open spec fn bstep(b: BModel, ev: Event) -> BModel {
    match ev {
        Event::BeginKey { offset } => BModel { offset, key: Seq::empty(), ..b },
        Event::KeyChar { c } => BModel { key: b.key.push(c), ..b },
        Event::EndKey => b,
        Event::BeginText => BModel { text: Seq::empty(), ..b },
        Event::TextChar { c } => BModel { text: b.text.push(c), ..b },
        Event::NextArraySlot => BModel {
            root: add_spec(b.root, b.offset, b.key, b.text),
            text: Seq::empty(),
            ..b
        },
        Event::EndText => BModel {
            root: add_spec(b.root, b.offset, b.key, b.text),
            text: Seq::empty(),
            ..b
        },
        Event::SyntaxError { row, col } => BModel { errors: b.errors.push((row, col)), ..b },
    }
}

/// The builder state after a whole callback stream.
pub open spec fn binterp(evs: Seq<Event>) -> BModel
    decreases evs.len(),
{
    if evs.len() == 0 {
        binit()
    } else {
        bstep(binterp(evs.drop_last()), evs.last())
    }
}

pub proof fn lemma_binterp_snoc(evs: Seq<Event>, e: Event)
    ensures
        binterp(evs.push(e)) == bstep(binterp(evs), e),
{
    assert(evs.push(e).drop_last() =~= evs);
}

/// The exported targets that a callback stream produces.
pub open spec fn targets_of_events(evs: Seq<Event>) -> Seq<TargetM> {
    exp_groups(binterp(evs).root.nodes, binterp(evs).root.tops, 0)
}

/// The reported error positions of a callback stream, in order.
pub open spec fn errors_of_events(evs: Seq<Event>) -> Seq<(usize, usize)> {
    binterp(evs).errors
}

/// The default consumer: builds the tree of parsed entries and records
/// every reported error position.
pub struct Builder {
    tree: Root,
    offset: usize,
    key: String,
    text: String,
    errors: Vec<(usize, usize)>,
    log: Ghost<Seq<Event>>,
}

impl Builder {
    pub closed spec fn bview(&self) -> BModel {
        BModel {
            root: self.tree@,
            offset: self.offset,
            key: self.key@,
            text: self.text@,
            errors: self.errors@,
        }
    }

    /// A builder with an empty tree and no accepted callbacks.
    pub fn new() -> (b: Builder)
        ensures
            b.inv(),
            b.events() == Seq::<Event>::empty(),
    {
        let b = Builder {
            tree: Root::new(),
            offset: 0,
            key: String::new(),
            text: String::new(),
            errors: Vec::new(),
            log: Ghost(Seq::empty()),
        };
        proof {
            assert(b.bview() == binit());
        }
        b
    }

    /// The built targets and the reported error positions.
    pub fn into_result(self) -> (r: (Vec<Target>, Vec<(usize, usize)>))
        requires
            self.inv(),
        ensures
            targets_view(r.0@) == targets_of_events(self.events()),
            r.1@ == errors_of_events(self.events()),
    {
        let t = self.tree.build();
        (t, self.errors)
    }
}

impl Contents for Builder {
    type Item = (Vec<Target>, Vec<(usize, usize)>);

    closed spec fn events(&self) -> Seq<Event> {
        self.log@
    }

    closed spec fn inv(&self) -> bool {
        self.bview() == binterp(self.log@) && root_wf(self.tree@)
    }

    fn get(self) -> Self::Item {
        self.into_result()
    }

    fn pre_key(&mut self, offset: usize) {
        self.offset = offset;
        self.key = String::new();
        proof {
            self.log@ = self.log@.push(Event::BeginKey { offset });
            lemma_binterp_snoc(old(self).log@, Event::BeginKey { offset });
        }
    }

    fn key(&mut self, c: char) {
        let mut k = String::new();
        core::mem::swap(&mut k, &mut self.key);
        crate::strutil::push_char(&mut k, c);
        self.key = k;
        proof {
            self.log@ = self.log@.push(key_ev(c));
            lemma_binterp_snoc(old(self).log@, key_ev(c));
        }
    }

    fn post_key(&mut self) {
        proof {
            self.log@ = self.log@.push(Event::EndKey);
            lemma_binterp_snoc(old(self).log@, Event::EndKey);
        }
    }

    fn pre_text(&mut self) {
        self.text = String::new();
        proof {
            self.log@ = self.log@.push(Event::BeginText);
            lemma_binterp_snoc(old(self).log@, Event::BeginText);
        }
    }

    fn text(&mut self, c: char) {
        let mut t = String::new();
        core::mem::swap(&mut t, &mut self.text);
        crate::strutil::push_char(&mut t, c);
        self.text = t;
        proof {
            self.log@ = self.log@.push(text_ev(c));
            lemma_binterp_snoc(old(self).log@, text_ev(c));
        }
    }

    fn text_array(&mut self) {
        let n = Node::new(self.offset, self.key.clone(), self.text.clone());
        self.tree.add(n);
        self.text = String::new();
        proof {
            self.log@ = self.log@.push(Event::NextArraySlot);
            lemma_binterp_snoc(old(self).log@, Event::NextArraySlot);
        }
    }

    fn post_text(&mut self) {
        let n = Node::new(self.offset, self.key.clone(), self.text.clone());
        self.tree.add(n);
        self.text = String::new();
        proof {
            self.log@ = self.log@.push(Event::EndText);
            lemma_binterp_snoc(old(self).log@, Event::EndText);
        }
    }

    fn error(&mut self, row: usize, n: usize) {
        self.errors.push((row, n));
        proof {
            self.log@ = self.log@.push(Event::SyntaxError { row, col: n });
            lemma_binterp_snoc(old(self).log@, Event::SyntaxError { row, col: n });
        }
    }
}

/// The parser state and the accumulated events after feeding a character
/// sequence to a freshly reset parser.
pub open spec fn run_events(m: PModel, s: Seq<char>) -> (PModel, Seq<Event>)
    decreases s.len(),
{
    if s.len() == 0 {
        (m, Seq::empty())
    } else {
        let r = run_events(m, s.drop_last());
        let st = spec_accept(r.0, s.last());
        (st.m, r.1 + st.evs)
    }
}

/// Every event handed to the consumer when the whole input, closed by the
/// end-of-stream sentinel, is parsed.
pub open spec fn parse_events(s: Seq<char>) -> Seq<Event> {
    let r = run_events(init_model(), s);
    let st = spec_accept(r.0, END);
    r.1 + st.evs
}

proof fn lemma_run_events_p1(s: Seq<char>)
    ensures
        p1_inv(run_events(init_model(), s).0, run_events(init_model(), s).1),
    decreases s.len(),
{
    if s.len() == 0 {
        assert(p1_inv(init_model(), Seq::<Event>::empty()));
    } else {
        lemma_run_events_p1(s.drop_last());
        let r = run_events(init_model(), s.drop_last());
        lemma_accept_p1(r.0, s.last(), r.1);
    }
}

/// Law: on every input, each parsed entry's offset is at most one more
/// than the greatest offset of the entries begun before it; in particular,
/// the first entry's offset is 0, so every tree starts at the top level.
pub proof fn lemma_parse_offsets_monotonic(input: Seq<char>)
    ensures
        offsets_monotonic(parse_events(input)),
{
    lemma_run_events_p1(input);
    let r = run_events(init_model(), input);
    lemma_accept_p1(r.0, END, r.1);
}

/// Parse the notation, one character at a time, feeding the consumer.
pub fn parse_chars<R: Contents>(s: &str, contents: R) -> (r: R)
    requires
        contents.inv(),
    ensures
        r.inv(),
        r.events() == contents.events() + parse_events(s@),
{
    let ghost evs0 = contents.events();
    let mut parser = Parser::new(contents);
    proof {
        assert(s@.take(0) =~= Seq::<char>::empty());
        assert(evs0 + Seq::<Event>::empty() =~= evs0);
    }
    let n = s.unicode_len();
    let mut i: usize = 0;
    while i < n
        invariant
            n == s@.len(),
            i <= n,
            parser.contents.inv(),
            parser.model() == run_events(init_model(), s@.take(i as int)).0,
            parser.contents.events() == evs0 + run_events(init_model(), s@.take(i as int)).1,
        decreases n - i,
    {
        let c = s.get_char(i);
        parser.accept(c);
        proof {
            assert(s@.take(i + 1).drop_last() =~= s@.take(i as int));
            assert(s@.take(i + 1).last() == s@[i as int]);
            let r = run_events(init_model(), s@.take(i as int));
            let st = spec_accept(r.0, s@[i as int]);
            assert(evs0 + (r.1 + st.evs) =~= (evs0 + r.1) + st.evs);
        }
        i += 1;
    }
    proof {
        assert(s@.take(n as int) =~= s@);
    }
    parser.accept(END);
    proof {
        let r = run_events(init_model(), s@);
        let st = spec_accept(r.0, END);
        assert(evs0 + (r.1 + st.evs) =~= (evs0 + r.1) + st.evs);
    }
    parser.contents()
}

/// Parse the notation from a character slice, feeding the consumer.
pub fn parse_slice<R: Contents>(buf: &[char], contents: R) -> (r: R)
    requires
        contents.inv(),
    ensures
        r.inv(),
        r.events() == contents.events() + parse_events(buf@),
{
    let ghost evs0 = contents.events();
    let mut parser = Parser::new(contents);
    proof {
        assert(buf@.take(0) =~= Seq::<char>::empty());
        assert(evs0 + Seq::<Event>::empty() =~= evs0);
    }
    let n = buf.len();
    let mut i: usize = 0;
    while i < n
        invariant
            n == buf@.len(),
            i <= n,
            parser.contents.inv(),
            parser.model() == run_events(init_model(), buf@.take(i as int)).0,
            parser.contents.events() == evs0 + run_events(init_model(), buf@.take(i as int)).1,
        decreases n - i,
    {
        let c = buf[i];
        parser.accept(c);
        proof {
            assert(buf@.take(i + 1).drop_last() =~= buf@.take(i as int));
            assert(buf@.take(i + 1).last() == buf@[i as int]);
            let r = run_events(init_model(), buf@.take(i as int));
            let st = spec_accept(r.0, buf@[i as int]);
            assert(evs0 + (r.1 + st.evs) =~= (evs0 + r.1) + st.evs);
        }
        i += 1;
    }
    proof {
        assert(buf@.take(n as int) =~= buf@);
    }
    parser.accept(END);
    proof {
        let r = run_events(init_model(), buf@);
        let st = spec_accept(r.0, END);
        assert(evs0 + (r.1 + st.evs) =~= (evs0 + r.1) + st.evs);
    }
    parser.contents()
}

/// Parse the notation to the tree of targets, reporting each malformed
/// character's row and column.
pub fn chars_to_target(s: &str) -> (r: (Vec<Target>, Vec<(usize, usize)>))
    ensures
        targets_view(r.0@) == targets_of_events(parse_events(s@)),
        r.1@ == errors_of_events(parse_events(s@)),
{
    let b = Builder::new();
    let b = parse_chars(s, b);
    proof {
        assert(Seq::<Event>::empty() + parse_events(s@) =~= parse_events(s@));
    }
    b.into_result()
}

/// Parse the notation from a character slice to the tree of targets,
/// reporting each malformed character's row and column.
pub fn slice_to_target(buf: &[char]) -> (r: (Vec<Target>, Vec<(usize, usize)>))
    ensures
        targets_view(r.0@) == targets_of_events(parse_events(buf@)),
        r.1@ == errors_of_events(parse_events(buf@)),
{
    let b = Builder::new();
    let b = parse_slice(buf, b);
    proof {
        assert(Seq::<Event>::empty() + parse_events(buf@) =~= parse_events(buf@));
    }
    b.into_result()
}

/// A `Vec<String>` with the same character sequences.
fn clone_strings(v: &Vec<String>) -> (r: Vec<String>)
    ensures
        strs_view(r@) == strs_view(v@),
{
    let mut r: Vec<String> = Vec::new();
    let mut i: usize = 0;
    while i < v.len()
        invariant
            i <= v@.len(),
            r@.len() == i,
            forall|j: int| 0 <= j < i ==> (#[trigger] r@[j])@ == v@[j]@,
        decreases v@.len() - i,
    {
        r.push(v[i].clone());
        i += 1;
    }
    proof {
        assert(strs_view(r@) =~= strs_view(v@));
    }
    r
}

/// The pairs of a path-to-texts table, as character sequences.
pub open spec fn pair_view(p: (String, Vec<String>)) -> (Seq<char>, Seq<Seq<char>>) {
    (p.0@, strs_view(p.1@))
}

pub open spec fn map_view(m: Seq<(String, Vec<String>)>) -> Seq<(Seq<char>, Seq<Seq<char>>)>
    decreases m.len(),
{
    if m.len() == 0 {
        Seq::empty()
    } else {
        map_view(m.drop_last()).push(pair_view(m.last()))
    }
}

pub proof fn lemma_map_view(m: Seq<(String, Vec<String>)>)
    ensures
        map_view(m).len() == m.len(),
        forall|i: int| 0 <= i < m.len() ==> map_view(m)[i] == pair_view(m[i]),
    decreases m.len(),
{
    if m.len() > 0 {
        lemma_map_view(m.drop_last());
    }
}

/// The index of the first entry with the given key, or -1 if none has it.
pub open spec fn assoc_find(m: Seq<(Seq<char>, Seq<Seq<char>>)>, k: Seq<char>) -> int
    decreases m.len(),
{
    if m.len() == 0 {
        -1
    } else if m[0].0 == k {
        0
    } else {
        let r = assoc_find(m.drop_first(), k);
        if r < 0 {
            -1
        } else {
            1 + r
        }
    }
}

pub proof fn lemma_assoc_find(m: Seq<(Seq<char>, Seq<Seq<char>>)>, k: Seq<char>)
    ensures
        -1 <= assoc_find(m, k) < m.len(),
        assoc_find(m, k) == -1 ==> forall|j: int| 0 <= j < m.len() ==> (#[trigger] m[j]).0 != k,
        assoc_find(m, k) >= 0 ==> m[assoc_find(m, k)].0 == k,
        assoc_find(m, k) >= 0 ==> forall|j: int|
            0 <= j < assoc_find(m, k) ==> (#[trigger] m[j]).0 != k,
    decreases m.len(),
{
    if m.len() > 0 && m[0].0 != k {
        lemma_assoc_find(m.drop_first(), k);
        assert forall|j: int| 1 <= j < m.len() implies m.drop_first()[j - 1] == m[j] by {}
    }
}

/// Record texts under a path key: a later entry with an existing key
/// overwrites the earlier entry's texts in place.
pub open spec fn assoc_set(
    m: Seq<(Seq<char>, Seq<Seq<char>>)>,
    k: Seq<char>,
    v: Seq<Seq<char>>,
) -> Seq<(Seq<char>, Seq<Seq<char>>)> {
    let f = assoc_find(m, k);
    if f >= 0 {
        m.update(f, (k, v))
    } else {
        m.push((k, v))
    }
}

/// The path names joined by the separator.
pub open spec fn join_path(path: Seq<Seq<char>>, sep: Seq<char>) -> Seq<char>
    decreases path.len(),
{
    if path.len() == 0 {
        Seq::empty()
    } else if path.len() == 1 {
        path[0]
    } else {
        join_path(path.drop_last(), sep) + sep + path.last()
    }
}

/// What the table conversion records for one target below a given path:
/// its own texts under the joined path, when it has any, then every
/// descendant in document order.
pub open spec fn tmap_spec(
    t: TargetM,
    prefix: Seq<Seq<char>>,
    sep: Seq<char>,
    m: Seq<(Seq<char>, Seq<Seq<char>>)>,
) -> Seq<(Seq<char>, Seq<Seq<char>>)>
    decreases t, 1nat,
{
    let path = prefix.push(t.name);
    let m1 = if t.text.len() > 0 {
        assoc_set(m, join_path(path, sep), t.text)
    } else {
        m
    };
    tmaps_spec(t.value, path, sep, m1)
}

pub open spec fn tmaps_spec(
    ts: Seq<TargetM>,
    prefix: Seq<Seq<char>>,
    sep: Seq<char>,
    m: Seq<(Seq<char>, Seq<Seq<char>>)>,
) -> Seq<(Seq<char>, Seq<Seq<char>>)>
    decreases ts, 0nat,
{
    if ts.len() == 0 {
        m
    } else {
        tmap_spec(ts.last(), prefix, sep, tmaps_spec(ts.drop_last(), prefix, sep, m))
    }
}

/// The path names joined by the separator.
fn join_keys(key_vec: &Vec<String>, separator: &str) -> (r: String)
    ensures
        r@ == join_path(strs_view(key_vec@), separator@),
{
    let mut r = String::new();
    let mut i: usize = 0;
    while i < key_vec.len()
        invariant
            i <= key_vec@.len(),
            r@ == join_path(strs_view(key_vec@).take(i as int), separator@),
        decreases key_vec@.len() - i,
    {
        if i > 0 {
            r.append(separator);
        }
        r.append(key_vec[i].as_str());
        proof {
            let sv = strs_view(key_vec@);
            assert(sv.take(i + 1).drop_last() =~= sv.take(i as int));
            assert(sv.take(i + 1).last() == sv[i as int]);
            assert(sv[i as int] == key_vec@[i as int]@);
            if i == 0 {
                assert(join_path(sv.take(1), separator@) == sv[0]);
                assert(r@ =~= join_path(sv.take(i + 1), separator@));
            } else {
                assert(r@ =~= join_path(sv.take(i + 1), separator@));
            }
        }
        i += 1;
    }
    proof {
        assert(strs_view(key_vec@).take(key_vec@.len() as int) =~= strs_view(key_vec@));
    }
    r
}

/// Record texts under a key, overwriting the texts of an earlier entry with
/// the same key.
fn map_insert(map: &mut Vec<(String, Vec<String>)>, k: String, v: Vec<String>)
    ensures
        map_view(final(map)@) == assoc_set(map_view(old(map)@), k@, strs_view(v@)),
{
    let ghost mv = map_view(map@);
    proof {
        lemma_map_view(map@);
        lemma_assoc_find(mv, k@);
    }
    let mut j: usize = 0;
    let n = map.len();
    while j < n
        invariant
            n == map@.len(),
            j <= n,
            map@ == old(map)@,
            mv == map_view(map@),
            forall|j2: int| 0 <= j2 < j ==> (#[trigger] mv[j2]).0 != k@,
        decreases n - j,
    {
        proof {
            lemma_map_view(map@);
        }
        if map[j].0 == k {
            proof {
                lemma_assoc_find(mv, k@);
                let f = assoc_find(mv, k@);
                assert(mv[j as int].0 == k@);
                assert(f != -1);
                assert(!(f < j));
                assert(!(f > j));
            }
            let ghost mseq = map@;
            map[j] = (k, v);
            proof {
                let p_new = map@[j as int];
                assert(map@ =~= mseq.update(j as int, p_new));
                lemma_map_view(map@);
                lemma_map_view(mseq);
                assert(pair_view(p_new) == (k@, strs_view(v@)));
                assert(map_view(map@) =~= assoc_set(mv, k@, strs_view(v@)));
            }
            return ;
        }
        j += 1;
    }
    proof {
        lemma_assoc_find(mv, k@);
    }
    let ghost mseq = map@;
    map.push((k, v));
    proof {
        assert(map@.drop_last() =~= mseq);
        lemma_map_view(mseq);
        assert(pair_view(map@.last()) == (k@, strs_view(v@)));
        assert(map_view(map@) =~= assoc_set(mv, k@, strs_view(v@)));
    }
}

/// Record one target's texts and those of its descendants in the table,
/// under the path of names leading to each, joined by the separator.
pub fn target_to_map(
    target: &Target,
    key_vec: &mut Vec<String>,
    map: &mut Vec<(String, Vec<String>)>,
    separator: &str,
)
    ensures
        final(key_vec)@ == old(key_vec)@,
        map_view(final(map)@) == tmap_spec(
            target_view(*target),
            strs_view(old(key_vec)@),
            separator@,
            map_view(old(map)@),
        ),
    decreases *target,
{
    let name = target.name.clone();
    key_vec.push(name);
    proof {
        assert(strs_view(key_vec@) =~= strs_view(old(key_vec)@).push(target.name@));
    }
    let ghost path = strs_view(key_vec@);
    let ghost kv1 = key_vec@;
    if target.text.len() > 0 {
        let k = join_keys(key_vec, separator);
        let v = clone_strings(&target.text);
        map_insert(map, k, v);
    }
    let ghost m1 = map_view(map@);
    let ghost tv = target_view(*target);
    proof {
        assert(strs_view(target.text@) == tv.text);
        assert(strs_view(target.text@).len() == target.text@.len());
        assert(targets_view(target.value@.take(0)) =~= Seq::<TargetM>::empty());
        assert(m1 == (if tv.text.len() > 0 {
            assoc_set(map_view(old(map)@), join_path(path, separator@), tv.text)
        } else {
            map_view(old(map)@)
        }));
    }
    let mut i: usize = 0;
    while i < target.value.len()
        invariant
            i <= target.value@.len(),
            path == strs_view(key_vec@),
            key_vec@ == kv1,
            kv1.len() > 0,
            kv1.drop_last() =~= old(key_vec)@,
            tv == target_view(*target),
            map_view(map@) == tmaps_spec(
                targets_view(target.value@.take(i as int)),
                path,
                separator@,
                m1,
            ),
        decreases target.value@.len() - i,
    {
        target_to_map(&target.value[i], key_vec, map, separator);
        proof {
            assert(target.value@.take(i + 1).drop_last() =~= target.value@.take(i as int));
            assert(target.value@.take(i + 1).last() == target.value@[i as int]);
            let prev = targets_view(target.value@.take(i as int));
            let cur = targets_view(target.value@.take(i + 1));
            let e = target_view(target.value@[i as int]);
            assert(cur == prev.push(e));
            assert(prev.push(e).drop_last() =~= prev);
            assert(prev.push(e).last() == e);
        }
        i += 1;
    }
    proof {
        assert(target.value@.take(target.value@.len() as int) =~= target.value@);
        assert(targets_view(target.value@) == tv.value);
    }
    key_vec.pop();
    proof {
        assert(key_vec@ =~= old(key_vec)@);
    }
}

/// Convert targets to a table from joined name paths to text lists, using
/// the separator to join each path.
pub fn vec_to_map(vec: &Vec<Target>, separator: &str) -> (r: Vec<(String, Vec<String>)>)
    ensures
        map_view(r@) == tmaps_spec(
            targets_view(vec@),
            Seq::empty(),
            separator@,
            Seq::empty(),
        ),
{
    let mut map: Vec<(String, Vec<String>)> = Vec::new();
    let mut key_vec: Vec<String> = Vec::new();
    proof {
        assert(map_view(map@) =~= Seq::<(Seq<char>, Seq<Seq<char>>)>::empty());
        assert(strs_view(key_vec@) =~= Seq::<Seq<char>>::empty());
        assert(targets_view(vec@.take(0)) =~= Seq::<TargetM>::empty());
    }
    let mut i: usize = 0;
    while i < vec.len()
        invariant
            i <= vec@.len(),
            strs_view(key_vec@) == Seq::<Seq<char>>::empty(),
            key_vec@.len() == 0,
            map_view(map@) == tmaps_spec(
                targets_view(vec@.take(i as int)),
                Seq::empty(),
                separator@,
                Seq::empty(),
            ),
        decreases vec@.len() - i,
    {
        target_to_map(&vec[i], &mut key_vec, &mut map, separator);
        proof {
            assert(vec@.take(i + 1).drop_last() =~= vec@.take(i as int));
            assert(vec@.take(i + 1).last() == vec@[i as int]);
            let prev = targets_view(vec@.take(i as int));
            let cur = targets_view(vec@.take(i + 1));
            let e = target_view(vec@[i as int]);
            assert(cur == prev.push(e));
            assert(prev.push(e).drop_last() =~= prev);
            assert(prev.push(e).last() == e);
        }
        i += 1;
    }
    proof {
        assert(vec@.take(vec@.len() as int) =~= vec@);
    }
    map
}

/// Convert one target to a table from joined name paths to text lists.
pub fn to_map(target: Target, separator: &str) -> (r: Vec<(String, Vec<String>)>)
    ensures
        map_view(r@) == tmap_spec(
            target_view(target),
            Seq::empty(),
            separator@,
            Seq::empty(),
        ),
{
    let mut map: Vec<(String, Vec<String>)> = Vec::new();
    let mut key_vec: Vec<String> = Vec::new();
    proof {
        assert(map_view(map@) =~= Seq::<(Seq<char>, Seq<Seq<char>>)>::empty());
        assert(strs_view(key_vec@) =~= Seq::<Seq<char>>::empty());
    }
    target_to_map(&target, &mut key_vec, &mut map, separator);
    map
}

/// `<name>text</name>` for each text value, in order.
pub open spec fn tags_of_texts(name: Seq<char>, texts: Seq<Seq<char>>) -> Seq<char>
    decreases texts.len(),
{
    if texts.len() == 0 {
        Seq::empty()
    } else {
        tags_of_texts(name, texts.drop_last()) + crate::xml::add_tag_spec(name, texts.last())
    }
}

/// The markup of one target: one element per text value, and, when the
/// children produce any markup, one wrapping element holding it.
pub open spec fn xml_of_target(t: TargetM) -> Seq<char>
    decreases t, 1nat,
{
    let s = xml_of_targets(t.value);
    tags_of_texts(t.name, t.text) + (if s.len() > 0 {
        crate::xml::add_tag_spec(t.name, s)
    } else {
        Seq::empty()
    })
}

/// The concatenated markup of the targets.
pub open spec fn xml_of_targets(ts: Seq<TargetM>) -> Seq<char>
    decreases ts, 0nat,
{
    if ts.len() == 0 {
        Seq::empty()
    } else {
        xml_of_targets(ts.drop_last()) + xml_of_target(ts.last())
    }
}

/// Convert targets to markup.
pub fn vec_to_xml(vec: &Vec<Target>) -> (r: String)
    ensures
        r@ == xml_of_targets(targets_view(vec@)),
    decreases vec@, 0nat,
{
    let mut xml = String::new();
    proof {
        assert(targets_view(vec@.take(0)) =~= Seq::<TargetM>::empty());
    }
    let mut i: usize = 0;
    while i < vec.len()
        invariant
            i <= vec@.len(),
            xml@ == xml_of_targets(targets_view(vec@.take(i as int))),
        decreases vec@.len() - i,
    {
        let t = to_xml(&vec[i]);
        xml.append(t.as_str());
        proof {
            assert(vec@.take(i + 1).drop_last() =~= vec@.take(i as int));
            assert(vec@.take(i + 1).last() == vec@[i as int]);
            let prev = targets_view(vec@.take(i as int));
            let cur = targets_view(vec@.take(i + 1));
            let e = target_view(vec@[i as int]);
            assert(cur == prev.push(e));
            assert(prev.push(e).drop_last() =~= prev);
            assert(prev.push(e).last() == e);
        }
        i += 1;
    }
    proof {
        assert(vec@.take(vec@.len() as int) =~= vec@);
    }
    xml
}

/// Convert one target to markup.
pub fn to_xml(target: &Target) -> (r: String)
    ensures
        r@ == xml_of_target(target_view(*target)),
    decreases *target, 1nat,
{
    let mut xml = String::new();
    let ghost tv = target_view(*target);
    proof {
        assert(tv.text.take(0) =~= Seq::<Seq<char>>::empty());
        assert(xml@ =~= tags_of_texts(tv.name, tv.text.take(0)));
    }
    let mut i: usize = 0;
    while i < target.text.len()
        invariant
            i <= target.text@.len(),
            tv == target_view(*target),
            tv.text.len() == target.text@.len(),
            xml@ == tags_of_texts(tv.name, tv.text.take(i as int)),
        decreases target.text@.len() - i,
    {
        crate::xml::add_tag(&mut xml, target.name.as_str(), target.text[i].as_str());
        proof {
            assert(tv.text.take(i + 1).drop_last() =~= tv.text.take(i as int));
            assert(tv.text.take(i + 1).last() == tv.text[i as int]);
            assert(tv.text[i as int] == target.text@[i as int]@);
        }
        i += 1;
    }
    proof {
        assert(tv.text.take(tv.text.len() as int) =~= tv.text);
    }
    let s = vec_to_xml(&target.value);
    if !s.as_str().is_empty() {
        crate::xml::add_tag(&mut xml, target.name.as_str(), s.as_str());
    }
    xml
}

} // verus!
