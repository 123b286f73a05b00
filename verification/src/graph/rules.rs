//! Rule sets: which names are sources, sinks and sanitizers of each class
//! of vulnerability.
use vstd::prelude::*;
use vstd::string::*;
use crate::text::{contains_text, find_key, key_set, text_set, same_text};
use crate::tree::cursor::Cursor;

verus! {

/// A marker on a path that makes a sink dangerous.
#[derive(Debug)]
pub struct Waypoint {
    /// The positions of the arguments that matter, if restricted.
    pub args: Option<Vec<u32>>,
}

impl Waypoint {
    /// A waypoint restricted to the argument positions `args`.
    pub fn new(args: Option<Vec<u32>>) -> (w: Waypoint)
        ensures
            w.args == args,
    {
        Waypoint { args }
    }
}

/// What a segment of a path is to a class of vulnerability.
#[derive(Clone, Copy, Debug, PartialEq, Eq, Structural)]
pub enum VertKind {
    Source,
    Sanitizer,
    Sink,
}

/// A list of names, each with the argument positions it is restricted to.
pub type Names = Vec<(String, Option<Vec<u32>>)>;

/// One class of vulnerability.
#[derive(Debug)]
pub struct Vuln {
    sinks: Names,
    sources: Vec<String>,
    sanitizers: Names,
    waypoints: Option<Vec<Waypoint>>,
}

/// The text by which a node is matched against the rules: its text in
/// brackets for the type of a cast, else its name, else nothing.
pub open spec fn canonical_name(cursor: Cursor) -> Seq<char> {
    if cursor.node().kind@ == "cast_type"@ {
        "("@ + cursor.text() + ")"@
    } else {
        match cursor.name_spec() {
            Some(name) => name,
            None => Seq::<char>::empty(),
        }
    }
}

impl Vuln {
    /// A class with the sinks, sources, sanitizers and waypoints given.
    pub fn new(
        sinks: Names,
        sources: Vec<String>,
        sanitizers: Names,
        waypoints: Option<Vec<Waypoint>>,
    ) -> (v: Vuln)
        ensures
            v.sink_names() == key_set(sinks@),
            v.source_names() == text_set(sources@),
            v.sanitizer_names() == key_set(sanitizers@),
            v.sinks_spec() == sinks@,
            v.sources_spec() == sources@,
            v.sanitizers_spec() == sanitizers@,
            v.waypoints_spec() == waypoints,
    {
        Vuln { sinks, sources, sanitizers, waypoints }
    }

    /// The sinks, as listed.
    pub closed spec fn sinks_spec(&self) -> Seq<(String, Option<Vec<u32>>)> {
        self.sinks@
    }

    /// The sources, as listed.
    pub closed spec fn sources_spec(&self) -> Seq<String> {
        self.sources@
    }

    /// The sanitizers, as listed.
    pub closed spec fn sanitizers_spec(&self) -> Seq<(String, Option<Vec<u32>>)> {
        self.sanitizers@
    }

    /// The waypoints, as listed.
    pub closed spec fn waypoints_spec(&self) -> Option<Vec<Waypoint>> {
        self.waypoints
    }

    /// The names and kinds that are sinks.
    pub open spec fn sink_names(&self) -> Set<Seq<char>> {
        key_set(self.sinks_spec())
    }

    /// The names that are sources.
    pub open spec fn source_names(&self) -> Set<Seq<char>> {
        text_set(self.sources_spec())
    }

    /// The names and kinds that are sanitizers.
    pub open spec fn sanitizer_names(&self) -> Set<Seq<char>> {
        key_set(self.sanitizers_spec())
    }

    /// What a node of kind `kind` that is matched by `name` is to this
    /// class: a sanitizer before a source, a source before a sink.
    pub open spec fn classify(&self, kind: Seq<char>, name: Seq<char>) -> Option<VertKind> {
        if self.sanitizer_names().contains(kind) || self.sanitizer_names().contains(name) {
            Some(VertKind::Sanitizer)
        } else if self.source_names().contains(kind) || self.source_names().contains(name) {
            Some(VertKind::Source)
        } else if self.sink_names().contains(kind) || self.sink_names().contains(name) {
            Some(VertKind::Sink)
        } else {
            None
        }
    }

    /// What the node under `cursor` is to this class.
    pub open spec fn identify_spec(&self, cursor: Cursor) -> Option<VertKind> {
        self.classify(cursor.node().kind@, canonical_name(cursor))
    }

    /// What the node under `cursor` is to this class of vulnerability.
    pub fn identify(&self, cursor: Cursor) -> (kind: Option<VertKind>)
        ensures
            kind == self.identify_spec(cursor),
    {
        let kind = cursor.kind();
        let name = if same_text(kind, "cast_type") {
            String::from_str("(").concat(cursor.to_str()).concat(")")
        } else {
            match cursor.name() {
                Some(name) => name,
                None => String::new(),
            }
        };
        if self.has_sanitizer(kind) || self.has_sanitizer(name.as_str()) {
            return Some(VertKind::Sanitizer);
        }
        if self.has_source(kind) || self.has_source(name.as_str()) {
            return Some(VertKind::Source);
        }
        if self.has_sink(kind) || self.has_sink(name.as_str()) {
            return Some(VertKind::Sink);
        }
        None
    }

    /// The sources, as listed.
    pub fn sources(&self) -> (sources: &Vec<String>)
        ensures
            sources@ == self.sources_spec(),
    {
        &self.sources
    }

    /// Whether `source` is the name of a source.
    pub fn has_source(&self, source: &str) -> (found: bool)
        ensures
            found == self.source_names().contains(source@),
    {
        contains_text(&self.sources, source)
    }

    /// The sinks, as listed.
    pub fn sinks(&self) -> (sinks: &Names)
        ensures
            sinks@ == self.sinks_spec(),
    {
        &self.sinks
    }

    /// Whether `sink` is the name or the kind of a sink.
    pub fn has_sink(&self, sink: &str) -> (found: bool)
        ensures
            found == self.sink_names().contains(sink@),
    {
        find_key(&self.sinks, sink).is_some()
    }

    /// The sanitizers, as listed.
    pub fn sanitizers(&self) -> (sanitizers: &Names)
        ensures
            sanitizers@ == self.sanitizers_spec(),
    {
        &self.sanitizers
    }

    /// Whether `sanitizer` is the name or the kind of a sanitizer.
    pub fn has_sanitizer(&self, sanitizer: &str) -> (found: bool)
        ensures
            found == self.sanitizer_names().contains(sanitizer@),
    {
        find_key(&self.sanitizers, sanitizer).is_some()
    }

    /// The waypoints of the class, if it lists any.
    pub fn waypoints(&self) -> (waypoints: &Option<Vec<Waypoint>>)
        ensures
            *waypoints == self.waypoints_spec(),
    {
        &self.waypoints
    }
}

/// What a list of names holds: each name with the positions it is
/// restricted to.
pub open spec fn names_view(v: Seq<(String, Option<Vec<u32>>)>) -> Seq<(Seq<char>, Option<Seq<u32>>)> {
    v.map_values(
        |e: (String, Option<Vec<u32>>)|
            (
                e.0@,
                match e.1 {
                    Some(args) => Some(args@),
                    None => None,
                },
            ),
    )
}

/// What the last entry of `s` under the name `key` holds.
pub open spec fn last_under<V>(s: Seq<(Seq<char>, V)>, key: Seq<char>) -> Option<V>
    decreases s.len(),
{
    if s.len() == 0 {
        None
    } else if s.last().0 == key {
        Some(s.last().1)
    } else {
        last_under(s.drop_last(), key)
    }
}

/// No two entries of `s` stand under the same name.
pub open spec fn names_distinct<V>(s: Seq<(Seq<char>, V)>) -> bool {
    forall|i: int, j: int| 0 <= i < j < s.len() ==> (#[trigger] s[i]).0 != (#[trigger] s[j]).0
}

/// An entry at the end is the last under its name.
pub proof fn lemma_last_push<V>(s: Seq<(Seq<char>, V)>, name: Seq<char>, value: V, key: Seq<char>)
    ensures
        last_under(s.push((name, value)), key) == if key == name {
            Some(value)
        } else {
            last_under(s, key)
        },
{
    assert(s.push((name, value)).drop_last() =~= s);
}

/// Nothing is under a name that no entry has.
pub proof fn lemma_last_absent<V>(s: Seq<(Seq<char>, V)>, key: Seq<char>)
    requires
        forall|i: int| 0 <= i < s.len() ==> (#[trigger] s[i]).0 != key,
    ensures
        last_under(s, key) is None,
    decreases s.len(),
{
    if s.len() > 0 {
        assert(s[s.len() - 1].0 != key);
        lemma_last_absent(s.drop_last(), key);
    }
}

/// Where names are distinct, a value put in the place of the entry under a
/// name is the last under that name, and the others stay.
pub proof fn lemma_last_update<V>(s: Seq<(Seq<char>, V)>, i: int, name: Seq<char>, value: V, key: Seq<char>)
    requires
        names_distinct(s),
        0 <= i < s.len(),
        s[i].0 == name,
    ensures
        names_distinct(s.update(i, (name, value))),
        last_under(s.update(i, (name, value)), key) == if key == name {
            Some(value)
        } else {
            last_under(s, key)
        },
    decreases s.len(),
{
    let t = s.update(i, (name, value));
    assert forall|a: int, b: int| 0 <= a < b < t.len() implies (#[trigger] t[a]).0 != (#[trigger] t[b]).0 by {
        assert(s[a].0 != s[b].0);
    }
    if i == s.len() - 1 {
        assert(t.drop_last() =~= s.drop_last());
        if key == name {
        } else {
        }
    } else {
        let front = s.drop_last();
        assert forall|a: int, b: int| 0 <= a < b < front.len() implies (#[trigger] front[a]).0 != (
        #[trigger] front[b]).0 by {
            assert(s[a].0 != s[b].0);
        }
        lemma_last_update(front, i, name, value, key);
        assert(t.drop_last() =~= front.update(i, (name, value)));
        assert(t.last() == s.last());
        assert(s[i].0 != s[s.len() - 1].0);
    }
}

/// The texts that `v` holds, in order.
pub open spec fn texts(v: Seq<String>) -> Seq<Seq<char>> {
    v.map_values(|s: String| s@)
}

/// The names `s` with the name `n`, at the end unless it is among them.
pub open spec fn add_name(s: Seq<Seq<char>>, n: Seq<char>) -> Seq<Seq<char>> {
    if s.contains(n) {
        s
    } else {
        s.push(n)
    }
}

/// The names `s` with the names of `more`, each at the end unless it is
/// there already.
pub open spec fn add_names(s: Seq<Seq<char>>, more: Seq<String>) -> Seq<Seq<char>>
    decreases more.len(),
{
    if more.len() == 0 {
        s
    } else {
        add_name(add_names(s, more.drop_last()), more.last()@)
    }
}

/// A set of rules to report on.
#[derive(Debug)]
pub struct Rules {
    vulns: Vec<(String, Vuln)>,
    sources: Vec<String>,
    hooks: Vec<String>,
}

impl Rules {
    /// A rule set of the classes `vulns`, each under its tag, with the
    /// sources that seed an analysis and the names of the functions that
    /// register callbacks.
    pub fn new(vulns: Vec<(String, Vuln)>, sources: Vec<String>, hooks: Vec<String>) -> (r: Rules)
        ensures
            r.vulns_spec() == vulns@,
            r.sources_spec() == sources@,
            r.hooks_spec() == hooks@,
    {
        Rules { vulns, sources, hooks }
    }

    /// The classes, as listed.
    pub closed spec fn vulns_spec(&self) -> Seq<(String, Vuln)> {
        self.vulns@
    }

    /// The seeding sources, as listed.
    pub closed spec fn sources_spec(&self) -> Seq<String> {
        self.sources@
    }

    /// The hooks, as listed.
    pub closed spec fn hooks_spec(&self) -> Seq<String> {
        self.hooks@
    }

    /// The names that are sources: the seeding ones and those of each
    /// class.
    pub open spec fn source_names(&self) -> Set<Seq<char>> {
        Set::new(
            |s: Seq<char>|
                text_set(self.sources_spec()).contains(s) || exists|k: int|
                    0 <= k < self.vulns_spec().len() && (#[trigger] self.vulns_spec()[k]).1.source_names().contains(
                        s,
                    ),
        )
    }

    /// The seeding sources and the sources of the first `k` classes, each
    /// once, in the order in which they are listed.
    pub open spec fn merged_upto(&self, k: nat) -> Seq<Seq<char>>
        decreases k,
    {
        if k == 0 {
            add_names(Seq::empty(), self.sources_spec())
        } else {
            add_names(self.merged_upto((k - 1) as nat), self.vulns_spec()[k - 1].1.sources_spec())
        }
    }

    /// All the sources of the rule set, each once, in the order in which
    /// they are listed.
    pub open spec fn merged_sources(&self) -> Seq<Seq<char>> {
        self.merged_upto(self.vulns_spec().len())
    }

    /// The sinks of the first `k` classes, in the order in which they are
    /// listed.
    pub open spec fn sinks_upto(&self, k: nat) -> Seq<(Seq<char>, Option<Seq<u32>>)>
        decreases k,
    {
        if k == 0 {
            Seq::empty()
        } else {
            self.sinks_upto((k - 1) as nat) + names_view(self.vulns_spec()[k - 1].1.sinks_spec())
        }
    }

    /// The names that are hooks.
    pub open spec fn hook_names(&self) -> Set<Seq<char>> {
        text_set(self.hooks_spec())
    }

    /// All the sources of the rule set, each once.
    #[verifier::loop_isolation(false)]
    pub fn sources(&self) -> (all: Vec<String>)
        ensures
            texts(all@) == self.merged_sources(),
            text_set(all@) == self.source_names(),
            texts(all@).no_duplicates(),
    {
        let mut all: Vec<String> = Vec::new();
        let mut i: usize = 0;
        assert(texts(all@) =~= Seq::<Seq<char>>::empty());
        assert(self.sources@.take(0) =~= Seq::<String>::empty());
        while i < self.sources.len()
            invariant
                i <= self.sources.len(),
                texts(all@).no_duplicates(),
                texts(all@) == add_names(Seq::empty(), self.sources@.take(i as int)),
                forall|s: Seq<char>| #[trigger]
                    text_set(all@).contains(s) <==> text_set(self.sources@.take(i as int)).contains(s),
            decreases self.sources.len() - i,
        {
            add_text(&mut all, &self.sources[i]);
            proof {
                assert(self.sources@.take(i + 1) =~= self.sources@.take(i as int).push(
                    self.sources@[i as int],
                ));
                assert(self.sources@.take(i + 1).drop_last() =~= self.sources@.take(i as int));
                lemma_text_set_push(self.sources@.take(i as int), self.sources@[i as int]);
            }
            i += 1;
        }
        assert(self.sources@.take(i as int) =~= self.sources@);
        let mut k: usize = 0;
        while k < self.vulns.len()
            invariant
                k <= self.vulns.len(),
                texts(all@).no_duplicates(),
                texts(all@) == self.merged_upto(k as nat),
                forall|s: Seq<char>| #[trigger]
                    text_set(all@).contains(s) <==> (text_set(self.sources@).contains(s) || exists|j: int|
                        0 <= j < k && (#[trigger] self.vulns@[j]).1.source_names().contains(s)),
            decreases self.vulns.len() - k,
        {
            let more = self.vulns[k].1.sources();
            let mut i: usize = 0;
            assert(more@.take(0) =~= Seq::<String>::empty());
            while i < more.len()
                invariant
                    i <= more.len(),
                    texts(all@).no_duplicates(),
                    texts(all@) == add_names(self.merged_upto(k as nat), more@.take(i as int)),
                    forall|s: Seq<char>| #[trigger]
                        text_set(all@).contains(s) <==> (text_set(self.sources@).contains(s) || (exists|
                            j: int,
                        |
                            0 <= j < k && (#[trigger] self.vulns@[j]).1.source_names().contains(s))
                            || text_set(more@.take(i as int)).contains(s)),
                decreases more.len() - i,
            {
                add_text(&mut all, &more[i]);
                proof {
                    assert(more@.take(i + 1) =~= more@.take(i as int).push(more@[i as int]));
                    assert(more@.take(i + 1).drop_last() =~= more@.take(i as int));
                    lemma_text_set_push(more@.take(i as int), more@[i as int]);
                }
                i += 1;
            }
            assert(more@.take(i as int) =~= more@);
            k += 1;
        }
        assert(text_set(all@) =~= self.source_names());
        all
    }

    /// Whether `source` is the name of a source.
    pub fn has_source(&self, source: &str) -> (found: bool)
        ensures
            found == self.source_names().contains(source@),
    {
        if contains_text(&self.sources, source) {
            return true;
        }
        let mut k: usize = 0;
        while k < self.vulns.len()
            invariant
                k <= self.vulns.len(),
                forall|j: int|
                    0 <= j < k ==> !(#[trigger] self.vulns@[j]).1.source_names().contains(source@),
            decreases self.vulns.len() - k,
        {
            if self.vulns[k].1.has_source(source) {
                return true;
            }
            k += 1;
        }
        false
    }

    /// The sinks of all classes, each name once: of two entries under one
    /// name, the one listed later stays.
    #[verifier::loop_isolation(false)]
    pub fn sinks(&self) -> (all: Names)
        ensures
            names_distinct(names_view(all@)),
            forall|key: Seq<char>|
                last_under(names_view(all@), key) == last_under(
                    self.sinks_upto(self.vulns_spec().len()),
                    key,
                ),
    {
        let mut all: Names = Vec::new();
        let mut k: usize = 0;
        assert(names_view(all@) =~= Seq::empty());
        while k < self.vulns.len()
            invariant
                k <= self.vulns.len(),
                names_distinct(names_view(all@)),
                forall|key: Seq<char>|
                    last_under(names_view(all@), key) == last_under(self.sinks_upto(k as nat), key),
            decreases self.vulns.len() - k,
        {
            let more = self.vulns[k].1.sinks();
            let ghost done = self.sinks_upto(k as nat);
            let mut i: usize = 0;
            assert(done + names_view(more@.take(0)) =~= done);
            while i < more.len()
                invariant
                    i <= more.len(),
                    names_distinct(names_view(all@)),
                    forall|key: Seq<char>|
                        last_under(names_view(all@), key) == last_under(
                            done + names_view(more@.take(i as int)),
                            key,
                        ),
                decreases more.len() - i,
            {
                let name = more[i].0.clone();
                let args = match &more[i].1 {
                    Some(v) => Some(copy_positions(v)),
                    None => None,
                };
                let ghost entry = names_view(more@)[i as int];
                let ghost before = names_view(all@);
                proof {
                    assert(done + names_view(more@.take(i + 1)) =~= (done + names_view(
                        more@.take(i as int),
                    )).push(entry));
                    crate::text::lemma_key_index(all@, name@);
                }
                let ghost held = all@;
                match find_key(&all, name.as_str()) {
                    Some(j) => {
                        all.set(j, (name, args));
                        proof {
                            assert(names_view(all@) =~= before.update(j as int, entry));
                            assert(before[j as int].0 == entry.0);
                            assert forall|key: Seq<char>|
                                last_under(names_view(all@), key) == last_under(
                                    done + names_view(more@.take(i + 1)),
                                    key,
                                ) by {
                                lemma_last_update(before, j as int, entry.0, entry.1, key);
                                lemma_last_push(
                                    done + names_view(more@.take(i as int)),
                                    entry.0,
                                    entry.1,
                                    key,
                                );
                            }
                            lemma_last_update(before, j as int, entry.0, entry.1, entry.0);
                        }
                    },
                    None => {
                        all.push((name, args));
                        proof {
                            assert(names_view(all@) =~= before.push(entry));
                            assert forall|a: int| 0 <= a < before.len() implies (#[trigger] before[a]).0
                                != entry.0 by {
                                assert(before[a].0 == held[a].0@);
                            }
                            assert forall|key: Seq<char>|
                                last_under(names_view(all@), key) == last_under(
                                    done + names_view(more@.take(i + 1)),
                                    key,
                                ) by {
                                lemma_last_push(before, entry.0, entry.1, key);
                                lemma_last_push(
                                    done + names_view(more@.take(i as int)),
                                    entry.0,
                                    entry.1,
                                    key,
                                );
                            }
                        }
                    },
                }
                i += 1;
            }
            assert(more@.take(i as int) =~= more@);
            k += 1;
        }
        all
    }

    /// The hooks, as listed.
    pub fn hooks(&self) -> (hooks: &Vec<String>)
        ensures
            hooks@ == self.hooks_spec(),
    {
        &self.hooks
    }

    /// Whether `name` is the name of a hook.
    pub fn has_hook(&self, name: &str) -> (found: bool)
        ensures
            found == self.hook_names().contains(name@),
    {
        contains_text(&self.hooks, name)
    }

    /// The classes, each with its tag, as listed.
    pub fn vulns(&self) -> (vulns: &Vec<(String, Vuln)>)
        ensures
            vulns@ == self.vulns_spec(),
    {
        &self.vulns
    }
}

/// Adding a text to a list adds it to the set of its texts.
pub proof fn lemma_text_set_push(v: Seq<String>, s: String)
    ensures
        text_set(v.push(s)) == text_set(v).insert(s@),
{
    assert forall|t: Seq<char>| text_set(v.push(s)).contains(t) <==> text_set(v).insert(s@).contains(
        t,
    ) by {
        if text_set(v.push(s)).contains(t) {
            let i = choose|i: int| 0 <= i < v.push(s).len() && (#[trigger] v.push(s)[i])@ == t;
            if i < v.len() {
                assert(v[i]@ == t);
            }
        }
        if text_set(v).contains(t) {
            let i = choose|i: int| 0 <= i < v.len() && (#[trigger] v[i])@ == t;
            assert(v.push(s)[i]@ == t);
        }
        if t == s@ {
            assert(v.push(s)[v.len() as int]@ == t);
        }
    }
    assert(text_set(v.push(s)) =~= text_set(v).insert(s@));
}

/// A copy of a list of argument positions.
fn copy_positions(v: &Vec<u32>) -> (w: Vec<u32>)
    ensures
        w@ == v@,
{
    let mut w: Vec<u32> = Vec::new();
    let mut i: usize = 0;
    while i < v.len()
        invariant
            i <= v.len(),
            w@ == v@.take(i as int),
        decreases v.len() - i,
    {
        w.push(v[i]);
        assert(v@.take(i + 1) =~= v@.take(i as int).push(v@[i as int]));
        i += 1;
    }
    assert(v@.take(i as int) =~= v@);
    w
}

/// A list holds a text exactly if the text is among its texts.
pub proof fn lemma_texts(v: Seq<String>, t: Seq<char>)
    ensures
        texts(v).contains(t) <==> text_set(v).contains(t),
{
    if texts(v).contains(t) {
        let i = choose|i: int| 0 <= i < texts(v).len() && texts(v)[i] == t;
        assert(v[i]@ == t);
    }
    if text_set(v).contains(t) {
        let i = choose|i: int| 0 <= i < v.len() && (#[trigger] v[i])@ == t;
        assert(texts(v)[i] == t);
    }
}

/// Appends a copy of `s` to `all` unless it holds that text already.
fn add_text(all: &mut Vec<String>, s: &String)
    requires
        texts(old(all)@).no_duplicates(),
    ensures
        texts(final(all)@).no_duplicates(),
        texts(final(all)@) == add_name(texts(old(all)@), s@),
        text_set(final(all)@) == text_set(old(all)@).insert(s@),
{
    proof {
        lemma_texts(all@, s@);
    }
    if !contains_text(all, s.as_str()) {
        all.push(s.clone());
        proof {
            lemma_text_set_push(old(all)@, *s);
            assert(texts(all@) =~= texts(old(all)@).push(s@));
            let before = texts(old(all)@);
            assert forall|i: int| 0 <= i < before.len() implies #[trigger] before[i] != s@ by {
                assert(old(all)@[i]@ != s@);
            }
            assert(text_set(all@) =~= text_set(old(all)@).insert(s@));
        }
    } else {
        assert(text_set(all@) =~= text_set(old(all)@).insert(s@));
    }
}

} // verus!
