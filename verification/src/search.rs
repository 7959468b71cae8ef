//! Recursive name search over the shared tree, as a walk whose decisions are
//! made here and whose directory reads are made by the caller.
use vstd::prelude::*;
use crate::json::{push_json_string, spec_json_string, EntryKind};
use crate::text::{
    chars_of, decimal, join, lowercase, push_char, push_decimal, range_is, to_lowercase, trim,
    trim_str,
};

verus! {

broadcast use vstd::string::group_string_axioms;

/// Result cap for a search: keeps a huge tree from stalling.
pub const SEARCH_MAX_RESULTS: usize = 300;

/// Scan cap for a search: at most this many entries are looked at.
pub const SEARCH_MAX_SCANNED: usize = 30000;

/// One entry met during the walk. `rel` is its path relative to the shared
/// root, if the file system gave one.
#[derive(Debug)]
pub struct SearchEntry {
    pub rel: Option<String>,
    pub name: String,
    pub kind: EntryKind,
}

/// The state of a search: the lower-cased needle, the scan budget left and
/// the hits so far (as JSON objects).
pub struct SearchWalk {
    needle: String,
    budget: usize,
    hits: Vec<String>,
}

pub struct SearchWalkView {
    pub needle: Seq<char>,
    pub budget: nat,
    pub hits: Seq<Seq<char>>,
}

impl View for SearchWalk {
    type V = SearchWalkView;

    closed spec fn view(&self) -> SearchWalkView {
        SearchWalkView {
            needle: self.needle@,
            budget: self.budget as nat,
            hits: Seq::new(self.hits@.len(), |i: int| self.hits@[i]@),
        }
    }
}

/// Whether `needle` occurs in `hay` (`str::contains`).
pub open spec fn contains_text(hay: Seq<char>, needle: Seq<char>) -> bool {
    exists|i: int|
        0 <= i && i + needle.len() <= hay.len() && #[trigger] hay.subrange(i, i + needle.len())
            == needle
}

/// `s` with every backslash turned into a slash.
pub open spec fn backslashes_to_slashes(s: Seq<char>) -> Seq<char> {
    Seq::new(s.len(), |i: int| if s[i] == '\\' { '/' } else { s[i] })
}

/// The path reported for a hit: the relative path with `/` separators, or
/// empty when the file system gave none.
pub open spec fn hit_path(rel: Option<Seq<char>>) -> Seq<char> {
    match rel {
        Some(r) => backslashes_to_slashes(r),
        None => Seq::<char>::empty(),
    }
}

/// The path reported for a hit is the entry's relative path with only its
/// backslashes turned into slashes: same length, every other character kept.
pub proof fn law_hit_path_only_turns_backslashes(rel: Seq<char>)
    ensures
        hit_path(Some(rel)).len() == rel.len(),
        forall|i: int|
            0 <= i < rel.len() ==> #[trigger] hit_path(Some(rel))[i] == if rel[i] == '\\' {
                '/'
            } else {
                rel[i]
            },
        !rel.contains('\\') ==> hit_path(Some(rel)) == rel,
        hit_path(None) == Seq::<char>::empty(),
{
    if !rel.contains('\\') {
        assert forall|i: int| 0 <= i < rel.len() implies rel[i] != '\\' by {
            if rel[i] == '\\' {
                assert(rel.contains(rel[i]));
            }
        }
        assert(hit_path(Some(rel)) =~= rel);
    }
}

/// The JSON object for one search hit.
pub open spec fn spec_hit_json(path: Seq<char>, name: Seq<char>, kind: EntryKind) -> Seq<char> {
    let head = "{\"path\":"@ + spec_json_string(path) + ",\"name\":"@ + spec_json_string(name);
    match kind {
        EntryKind::Dir => head + ",\"dir\":true}"@,
        EntryKind::File { size } => head + ",\"dir\":false,\"size\":"@ + decimal(size as nat)
            + "}"@,
    }
}

/// The search body: `{"query":<query>,"entries":[<hits>]}`.
pub open spec fn spec_search_json(query: Seq<char>, hits: Seq<Seq<char>>) -> Seq<char> {
    "{\"query\":"@ + spec_json_string(query) + ",\"entries\":["@ + join(hits, seq![',']) + "]}"@
}

/// The walk's bounds: never more hits than the cap, never more budget than the scan cap.
pub open spec fn walk_wf(w: SearchWalkView) -> bool {
    w.hits.len() <= SEARCH_MAX_RESULTS && w.budget <= SEARCH_MAX_SCANNED
}

/// Whether the walk may look at another entry.
pub open spec fn spec_can_continue(w: SearchWalkView) -> bool {
    w.needle.len() > 0 && w.budget > 0 && w.hits.len() < SEARCH_MAX_RESULTS
}

/// What the walk sees of one entry: its path relative to the root (when the
/// file system gave one), its name and its kind.
pub struct SeenEntry {
    pub rel: Option<Seq<char>>,
    pub name: Seq<char>,
    pub kind: EntryKind,
}

/// What the walk sees of an entry handed to `visit` (`None` when its metadata
/// could not be read).
pub open spec fn seen_of(entry: Option<SearchEntry>) -> Option<SeenEntry> {
    match entry {
        Some(e) => Some(
            SeenEntry {
                rel: match e.rel {
                    Some(x) => Some(x@),
                    None => None,
                },
                name: e.name@,
                kind: e.kind,
            },
        ),
        None => None,
    }
}

/// The hit that `entry` makes for `needle`: its JSON object when its
/// lower-cased name contains the needle, else nothing.
pub open spec fn hit_of(needle: Seq<char>, entry: Option<SeenEntry>) -> Seq<Seq<char>> {
    match entry {
        Some(e) => if contains_text(lowercase(e.name), needle) {
            seq![spec_hit_json(hit_path(e.rel), e.name, e.kind)]
        } else {
            Seq::empty()
        },
        None => Seq::empty(),
    }
}

/// The walk after it looks at `entry`: one unit of budget spent, and the
/// entry's hit recorded.
pub open spec fn spec_visit(w: SearchWalkView, entry: Option<SeenEntry>) -> SearchWalkView {
    SearchWalkView {
        needle: w.needle,
        budget: (w.budget - 1) as nat,
        hits: w.hits + hit_of(w.needle, entry),
    }
}

/// Whether the walk descends into an entry it looked at: only into a folder.
pub open spec fn spec_descends(entry: Option<SeenEntry>) -> bool {
    match entry {
        Some(e) => e.kind == EntryKind::Dir,
        None => false,
    }
}

/// One entry of a folder tree: what the walk sees of it and, for a folder,
/// the entries that reading it gives (none when it cannot be read).
pub struct TreeEntry {
    pub seen: Option<SeenEntry>,
    pub children: Seq<TreeEntry>,
}

/// The entries of a folder, in the order a depth-first walk meets them: each
/// entry, then (when the walk descends into it) the entries below it, then the
/// next entry of the folder.
pub open spec fn walk_order(folder: Seq<TreeEntry>) -> Seq<Option<SeenEntry>>
    decreases folder,
{
    if folder.len() == 0 {
        Seq::empty()
    } else {
        let first = folder[0];
        let below = if spec_descends(first.seen) {
            walk_order(first.children)
        } else {
            Seq::empty()
        };
        seq![first.seen] + below + walk_order(folder.skip(1))
    }
}

/// The walk after it meets `entries` in order, looking at each one while it
/// may continue.
pub open spec fn spec_walk(w: SearchWalkView, entries: Seq<Option<SeenEntry>>) -> SearchWalkView
    decreases entries.len(),
{
    if entries.len() == 0 || !spec_can_continue(w) {
        w
    } else {
        spec_walk(spec_visit(w, entries[0]), entries.skip(1))
    }
}

/// The hits that `entries` make for `needle`, in order.
pub open spec fn all_hits(needle: Seq<char>, entries: Seq<Option<SeenEntry>>) -> Seq<Seq<char>>
    decreases entries.len(),
{
    if entries.len() == 0 {
        Seq::empty()
    } else {
        hit_of(needle, entries[0]) + all_hits(needle, entries.skip(1))
    }
}

/// The first `n` items of `s` (all of them when there are fewer).
pub open spec fn first_n<A>(s: Seq<A>, n: nat) -> Seq<A> {
    if s.len() <= n {
        s
    } else {
        s.take(n as int)
    }
}

proof fn lemma_first_n_front<A>(x: Seq<A>, s: Seq<A>, n: nat)
    requires
        x.len() <= n,
    ensures
        first_n(x + s, n) == x + first_n(s, (n - x.len()) as nat),
{
    if (x + s).len() > n {
        assert((x + s).take(n as int) =~= x + s.take(n - x.len()));
    }
}

proof fn lemma_walk_hits(w: SearchWalkView, entries: Seq<Option<SeenEntry>>)
    requires
        walk_wf(w),
        w.needle.len() > 0,
    ensures
        spec_walk(w, entries).hits == w.hits + first_n(
            all_hits(w.needle, first_n(entries, w.budget)),
            (SEARCH_MAX_RESULTS - w.hits.len()) as nat,
        ),
    decreases entries.len(),
{
    let k = (SEARCH_MAX_RESULTS - w.hits.len()) as nat;
    if entries.len() == 0 {
        assert(w.hits + first_n(all_hits(w.needle, first_n(entries, w.budget)), k) =~= w.hits);
    } else if !spec_can_continue(w) {
        assert(first_n(all_hits(w.needle, first_n(entries, w.budget)), k) =~= Seq::<
            Seq<char>,
        >::empty());
        assert(w.hits + Seq::<Seq<char>>::empty() =~= w.hits);
    } else {
        let e0 = entries[0];
        let rest = entries.skip(1);
        let w1 = spec_visit(w, e0);
        let h0 = hit_of(w.needle, e0);
        lemma_walk_hits(w1, rest);
        let front = first_n(entries, w.budget);
        assert(front =~= seq![e0] + first_n(rest, (w.budget - 1) as nat));
        assert((seq![e0] + first_n(rest, (w.budget - 1) as nat)).skip(1) =~= first_n(
            rest,
            (w.budget - 1) as nat,
        ));
        let a = all_hits(w.needle, first_n(rest, (w.budget - 1) as nat));
        assert(all_hits(w.needle, front) == h0 + a);
        lemma_first_n_front(h0, a, k);
        assert(w1.hits + first_n(a, (SEARCH_MAX_RESULTS - w1.hits.len()) as nat) =~= w.hits
            + (h0 + first_n(a, (k - h0.len()) as nat)));
    }
}

/// A search misses no match unless a cap stops it. Walking a folder tree
/// depth-first (each folder's entries right after the folder), a walk whose
/// needle is `lowercase(trim(query))` records, in the order it meets them, the
/// hits of the first `SEARCH_MAX_SCANNED` entries, up to `SEARCH_MAX_RESULTS`
/// of them; so a tree of at most `SEARCH_MAX_SCANNED` entries yields all its
/// matches up to the result cap. A blank needle records nothing.
pub proof fn law_search_finds_every_match(query: Seq<char>, tree: Seq<TreeEntry>)
    ensures
        ({
            let start = SearchWalkView {
                needle: lowercase(trim(query)),
                budget: SEARCH_MAX_SCANNED as nat,
                hits: Seq::empty(),
            };
            let met = walk_order(tree);
            let found = spec_walk(start, met).hits;
            &&& start.needle.len() == 0 ==> found.len() == 0
            &&& start.needle.len() > 0 ==> found == first_n(
                all_hits(start.needle, first_n(met, SEARCH_MAX_SCANNED as nat)),
                SEARCH_MAX_RESULTS as nat,
            )
            &&& start.needle.len() > 0 && met.len() <= SEARCH_MAX_SCANNED ==> found == first_n(
                all_hits(start.needle, met),
                SEARCH_MAX_RESULTS as nat,
            )
        }),
{
    let start = SearchWalkView {
        needle: lowercase(trim(query)),
        budget: SEARCH_MAX_SCANNED as nat,
        hits: Seq::empty(),
    };
    let met = walk_order(tree);
    if start.needle.len() > 0 {
        lemma_walk_hits(start, met);
        assert(Seq::<Seq<char>>::empty() + first_n(
            all_hits(start.needle, first_n(met, SEARCH_MAX_SCANNED as nat)),
            SEARCH_MAX_RESULTS as nat,
        ) =~= first_n(
            all_hits(start.needle, first_n(met, SEARCH_MAX_SCANNED as nat)),
            SEARCH_MAX_RESULTS as nat,
        ));
    }
}

/// Whether `needle` occurs in `hay`.
pub fn text_contains(hay: &str, needle: &str) -> (r: bool)
    ensures
        r == contains_text(hay@, needle@),
{
    let h = chars_of(hay);
    let n = chars_of(needle);
    if n.len() == 0 {
        assert(h@.subrange(0int, 0int + n@.len()) =~= n@);
        return true;
    }
    if n.len() > h.len() {
        return false;
    }
    let mut i: usize = 0;
    while h.len() - i >= n.len()
        invariant
            h@ == hay@,
            n@ == needle@,
            0 < n@.len() <= h@.len(),
            i <= h@.len(),
            forall|j: int| 0 <= j < i ==> #[trigger] h@.subrange(j, j + n@.len()) != n@,
        decreases h@.len() - i,
    {
        if range_is(&h, i, i + n.len(), &n) {
            return true;
        }
        i = i + 1;
    }
    false
}

fn hit_path_of(rel: &Option<String>) -> (r: String)
    ensures
        r@ == hit_path(
            match rel {
                Some(x) => Some(x@),
                None => None,
            },
        ),
{
    let mut r = String::new();
    match rel {
        Some(x) => {
            let v = chars_of(x.as_str());
            let mut i: usize = 0;
            while i < v.len()
                invariant
                    v@ == x@,
                    i <= v@.len(),
                    r@ == backslashes_to_slashes(v@).take(i as int),
                decreases v@.len() - i,
            {
                let c = if v[i] == '\\' {
                    '/'
                } else {
                    v[i]
                };
                push_char(&mut r, c);
                assert(r@ =~= backslashes_to_slashes(v@).take(i + 1));
                i = i + 1;
            }
            assert(backslashes_to_slashes(v@).take(i as int) =~= backslashes_to_slashes(v@));
        },
        None => {},
    }
    r
}

/// The JSON object for one search hit.
pub fn hit_json(path: &str, name: &str, kind: EntryKind) -> (r: String)
    ensures
        r@ == spec_hit_json(path@, name@, kind),
{
    let mut r = "{\"path\":".to_owned();
    push_json_string(&mut r, path);
    r.append(",\"name\":");
    push_json_string(&mut r, name);
    match kind {
        EntryKind::Dir => {
            r.append(",\"dir\":true}");
        },
        EntryKind::File { size } => {
            r.append(",\"dir\":false,\"size\":");
            push_decimal(&mut r, size);
            r.append("}");
        },
    }
    r
}

impl SearchWalk {
    /// A walk for `query`: its needle is the query trimmed and lower-cased.
    pub fn new(query: &str) -> (r: SearchWalk)
        ensures
            r@.needle == lowercase(trim(query@)),
            r@.budget == SEARCH_MAX_SCANNED,
            r@.hits.len() == 0,
            walk_wf(r@),
            trim(query@).len() == 0 ==> !spec_can_continue(r@),
    {
        let needle = to_lowercase(trim_str(query));
        SearchWalk { needle, budget: SEARCH_MAX_SCANNED, hits: Vec::new() }
    }

    /// Whether the walk may look at another entry: the needle is not empty,
    /// budget is left and the result cap is not reached.
    pub fn can_continue(&self) -> (r: bool)
        ensures
            r == spec_can_continue(self@),
    {
        !self.needle.as_str().is_empty() && self.budget > 0 && self.hits.len() < SEARCH_MAX_RESULTS
    }

    /// Looks at one entry whose lower-cased name is `lowered` (`None` when its
    /// metadata could not be read): spends one unit of budget, records a hit
    /// when the name contains the needle, and tells whether to descend into it.
    pub fn visit_lowered(&mut self, entry: &Option<SearchEntry>, lowered: &str) -> (descend: bool)
        requires
            walk_wf(old(self)@),
            spec_can_continue(old(self)@),
        ensures
            walk_wf(final(self)@),
            final(self)@.needle == old(self)@.needle,
            final(self)@.budget == old(self)@.budget - 1,
            match entry {
                Some(e) => {
                    &&& final(self)@.hits == if contains_text(lowered@, old(self)@.needle) {
                        old(self)@.hits.push(
                            spec_hit_json(
                                hit_path(
                                    match e.rel {
                                        Some(x) => Some(x@),
                                        None => None,
                                    },
                                ),
                                e.name@,
                                e.kind,
                            ),
                        )
                    } else {
                        old(self)@.hits
                    }
                    &&& descend == (e.kind == EntryKind::Dir)
                },
                None => final(self)@.hits == old(self)@.hits && !descend,
            },
    {
        self.budget = self.budget - 1;
        match entry {
            Some(e) => {
                let ghost before = self@.hits;
                if text_contains(lowered, self.needle.as_str()) {
                    let path = hit_path_of(&e.rel);
                    let h = hit_json(path.as_str(), e.name.as_str(), e.kind);
                    self.hits.push(h);
                    assert(self@.hits =~= before.push(h@));
                }
                e.kind == EntryKind::Dir
            },
            None => false,
        }
    }

    /// Looks at one entry (`None` when its metadata could not be read).
    pub fn visit(&mut self, entry: &Option<SearchEntry>) -> (descend: bool)
        requires
            walk_wf(old(self)@),
            spec_can_continue(old(self)@),
        ensures
            walk_wf(final(self)@),
            final(self)@.needle == old(self)@.needle,
            final(self)@.budget == old(self)@.budget - 1,
            match entry {
                Some(e) => {
                    &&& final(self)@.hits == if contains_text(lowercase(e.name@), old(self)@.needle) {
                        old(self)@.hits.push(
                            spec_hit_json(
                                hit_path(
                                    match e.rel {
                                        Some(x) => Some(x@),
                                        None => None,
                                    },
                                ),
                                e.name@,
                                e.kind,
                            ),
                        )
                    } else {
                        old(self)@.hits
                    }
                    &&& descend == (e.kind == EntryKind::Dir)
                },
                None => final(self)@.hits == old(self)@.hits && !descend,
            },
            final(self)@ == spec_visit(old(self)@, seen_of(*entry)),
            descend == spec_descends(seen_of(*entry)),
    {
        let ghost w = old(self)@;
        let lowered = match entry {
            Some(e) => to_lowercase(e.name.as_str()),
            None => String::new(),
        };
        let descend = self.visit_lowered(entry, lowered.as_str());
        proof {
            assert(self@.hits =~= spec_visit(w, seen_of(*entry)).hits);
        }
        descend
    }

    /// The search body for `query` with the hits found.
    pub fn finish(&self, query: &str) -> (r: String)
        ensures
            r@ == spec_search_json(query@, self@.hits),
    {
        search_json(query, &self.hits)
    }
}

/// The search body: `{"query":<query>,"entries":[<hits>]}`.
pub fn search_json(query: &str, hits: &Vec<String>) -> (r: String)
    ensures
        r@ == spec_search_json(query@, Seq::new(hits@.len(), |i: int| hits@[i]@)),
{
    let ghost hv = Seq::new(hits@.len(), |i: int| hits@[i]@);
    let mut r = "{\"query\":".to_owned();
    push_json_string(&mut r, query);
    r.append(",\"entries\":[");
    let ghost head = r@;
    let mut k: usize = 0;
    while k < hits.len()
        invariant
            hv == Seq::new(hits@.len(), |i: int| hits@[i]@),
            k <= hits@.len(),
            r@ == head + join(hv.take(k as int), seq![',']),
        decreases hits@.len() - k,
    {
        assert(hv.take(k + 1).drop_last() =~= hv.take(k as int));
        assert(hv[k as int] == hits@[k as int]@);
        if k > 0 {
            push_char(&mut r, ',');
        }
        r.append(hits[k].as_str());
        assert(r@ =~= head + join(hv.take(k + 1), seq![',']));
        k = k + 1;
    }
    assert(hv.take(k as int) =~= hv);
    r.append("]}");
    r
}

} // verus!
