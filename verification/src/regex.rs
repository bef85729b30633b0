//! A small regular-expression engine: literals, `.`, character classes,
//! the quantifiers `*` `+` `?`, the anchors `^` `$`, and `\` escapes.
//!
//! Patterns are compiled at parse time; matching is proved equal to a
//! recursive mathematical semantics over character sequences.

use vstd::prelude::*;

verus! {

/// One member of a character class: a single character or a range.
#[derive(Clone, Copy, Debug)]
pub enum ClassItem {
    Ch(char),
    Range(char, char),
}

/// What one atom of a pattern can match.
#[derive(Clone, Debug)]
pub enum AtomKind {
    /// A literal character.
    Lit(char),
    /// `.`: any character.
    Any,
    /// `[...]` or `[^...]`.
    Class { negated: bool, items: Vec<ClassItem> },
}

/// How often an atom may repeat.
#[derive(Clone, Copy, Debug, PartialEq, Eq, Structural)]
pub enum Quant {
    One,
    Star,
    Plus,
    Opt,
}

/// One atom with its quantifier.
#[derive(Clone, Debug)]
pub struct Atom {
    pub kind: AtomKind,
    pub quant: Quant,
}

/// A compiled pattern, carrying (in ghost) the text it was compiled from.
pub struct Pattern {
    pub atoms: Vec<Atom>,
    pub anchor_start: bool,
    pub anchor_end: bool,
    pub source: Ghost<Seq<char>>,
}

pub open spec fn class_item_has(item: ClassItem, c: char) -> bool {
    match item {
        ClassItem::Ch(x) => c == x,
        ClassItem::Range(lo, hi) => lo <= c && c <= hi,
    }
}

pub open spec fn class_has(items: Seq<ClassItem>, c: char) -> bool {
    exists|i: int| 0 <= i < items.len() && class_item_has(items[i], c)
}

pub open spec fn atom_matches(kind: AtomKind, c: char) -> bool {
    match kind {
        AtomKind::Lit(l) => c == l,
        AtomKind::Any => true,
        AtomKind::Class { negated, items } => negated != class_has(items@, c),
    }
}

/// The matching semantics: `atoms` matches a prefix of `text`
/// (the whole of `text` when `to_end`).
pub open spec fn spec_match(atoms: Seq<Atom>, text: Seq<char>, to_end: bool) -> bool
    decreases atoms.len(), text.len(),
{
    if atoms.len() == 0 {
        !to_end || text.len() == 0
    } else {
        let a = atoms.first();
        match a.quant {
            Quant::One => text.len() > 0 && atom_matches(a.kind, text.first()) && spec_match(
                atoms.drop_first(),
                text.drop_first(),
                to_end,
            ),
            Quant::Opt => spec_match(atoms.drop_first(), text, to_end) || (text.len() > 0
                && atom_matches(a.kind, text.first()) && spec_match(
                atoms.drop_first(),
                text.drop_first(),
                to_end,
            )),
            Quant::Star => spec_match(atoms.drop_first(), text, to_end) || (text.len() > 0
                && atom_matches(a.kind, text.first()) && spec_match(
                atoms,
                text.drop_first(),
                to_end,
            )),
            Quant::Plus => text.len() > 0 && atom_matches(a.kind, text.first()) && (spec_match(
                atoms.drop_first(),
                text.drop_first(),
                to_end,
            ) || spec_match(atoms, text.drop_first(), to_end)),
        }
    }
}

/// Whether the pattern matches somewhere in `text`, honouring anchors.
pub open spec fn spec_search(p: Pattern, text: Seq<char>) -> bool {
    if p.anchor_start {
        spec_match(p.atoms@, text, p.anchor_end)
    } else {
        exists|i: int| 0 <= i <= text.len() && spec_match(p.atoms@, text.skip(i), p.anchor_end)
    }
}

fn exec_class_has(items: &Vec<ClassItem>, c: char) -> (r: bool)
    ensures
        r == class_has(items@, c),
{
    let n = items.len();
    let mut i: usize = 0;
    while i < n
        invariant
            i <= n,
            n == items@.len(),
            forall|j: int| 0 <= j < i as int ==> !class_item_has(items@[j], c),
        decreases n - i,
    {
        let hit = match items[i] {
            ClassItem::Ch(x) => c == x,
            ClassItem::Range(lo, hi) => lo <= c && c <= hi,
        };
        if hit {
            return true;
        }
        i = i + 1;
    }
    false
}

fn exec_atom_matches(kind: &AtomKind, c: char) -> (r: bool)
    ensures
        r == atom_matches(*kind, c),
{
    match kind {
        AtomKind::Lit(l) => c == *l,
        AtomKind::Any => true,
        AtomKind::Class { negated, items } => *negated != exec_class_has(items, c),
    }
}

/// The backtracking matcher, working on suffixes `atoms[ai..]` and `text[ti..]`.
fn match_from(atoms: &Vec<Atom>, ai: usize, text: &Vec<char>, ti: usize, to_end: bool) -> (r: bool)
    requires
        ai <= atoms@.len(),
        ti <= text@.len(),
    ensures
        r == spec_match(atoms@.skip(ai as int), text@.skip(ti as int), to_end),
    decreases atoms@.len() - ai, text@.len() - ti,
{
    proof {
        lemma_skip_first(atoms@, ai as int);
        lemma_skip_first(text@, ti as int);
    }
    if ai == atoms.len() {
        !to_end || ti == text.len()
    } else {
        let a = &atoms[ai];
        match a.quant {
            Quant::One => {
                ti < text.len() && exec_atom_matches(&a.kind, text[ti]) && match_from(
                    atoms,
                    ai + 1,
                    text,
                    ti + 1,
                    to_end,
                )
            },
            Quant::Opt => {
                if match_from(atoms, ai + 1, text, ti, to_end) {
                    true
                } else {
                    ti < text.len() && exec_atom_matches(&a.kind, text[ti]) && match_from(
                        atoms,
                        ai + 1,
                        text,
                        ti + 1,
                        to_end,
                    )
                }
            },
            Quant::Star => {
                if match_from(atoms, ai + 1, text, ti, to_end) {
                    true
                } else {
                    ti < text.len() && exec_atom_matches(&a.kind, text[ti]) && match_from(
                        atoms,
                        ai,
                        text,
                        ti + 1,
                        to_end,
                    )
                }
            },
            Quant::Plus => {
                ti < text.len() && exec_atom_matches(&a.kind, text[ti]) && {
                    if match_from(atoms, ai + 1, text, ti + 1, to_end) {
                        true
                    } else {
                        match_from(atoms, ai, text, ti + 1, to_end)
                    }
                }
            },
        }
    }
}

/// `s.skip(i)` starts with `s[i]`, and skipping one more drops it.
proof fn lemma_skip_first<A>(s: Seq<A>, i: int)
    requires
        0 <= i <= s.len(),
    ensures
        i < s.len() ==> s.skip(i).len() == s.len() - i && s.skip(i).first() == s[i] && s.skip(
            i,
        ).drop_first() =~= s.skip(i + 1),
        i == s.len() ==> s.skip(i).len() == 0,
{
}

impl Pattern {
    /// Whether the pattern matches somewhere in the text.
    pub fn is_match(&self, text: &Vec<char>) -> (r: bool)
        ensures
            r == spec_search(*self, text@),
    {
        if self.anchor_start {
            let r = match_from(&self.atoms, 0, text, 0, self.anchor_end);
            proof {
                assert(text@.skip(0) =~= text@);
                assert(self.atoms@.skip(0) =~= self.atoms@);
            }
            r
        } else {
            let n = text.len();
            let mut i: usize = 0;
            proof {
                assert(self.atoms@.skip(0) =~= self.atoms@);
            }
            loop
                invariant
                    !self.anchor_start,
                    i <= n,
                    n == text@.len(),
                    forall|j: int|
                        0 <= j < i as int ==> !spec_match(self.atoms@, text@.skip(j), self.anchor_end),
                decreases n - i,
            {
                proof {
                    assert(self.atoms@.skip(0) =~= self.atoms@);
                }
                if match_from(&self.atoms, 0, text, i, self.anchor_end) {
                    proof {
                        assert(spec_match(self.atoms@, text@.skip(i as int), self.anchor_end));
                        assert(spec_search(*self, text@));
                    }
                    return true;
                }
                if i == n {
                    proof {
                        assert(forall|j: int|
                            0 <= j <= text@.len() ==> !spec_match(
                                self.atoms@,
                                text@.skip(j),
                                self.anchor_end,
                            ));
                        assert(!spec_search(*self, text@));
                    }
                    return false;
                }
                i = i + 1;
            }
        }
    }

    /// The longest match of the whole pattern body starting at `ti`
    /// (anchors play no part here): the end position of the match.
    pub fn longest_match_at(&self, text: &Vec<char>, ti: usize) -> (r: Option<usize>)
        requires
            ti <= text@.len(),
        ensures
            match r {
                Some(e) => ti <= e <= text@.len() && spec_match(
                    self.atoms@,
                    text@.subrange(ti as int, e as int),
                    true,
                ) && forall|e2: int|
                    e < e2 <= text@.len() ==> !spec_match(
                        self.atoms@,
                        text@.subrange(ti as int, e2),
                        true,
                    ),
                None => forall|e2: int|
                    ti <= e2 <= text@.len() ==> !spec_match(
                        self.atoms@,
                        text@.subrange(ti as int, e2),
                        true,
                    ),
            },
    {
        let n = text.len();
        let mut e: usize = n;
        proof {
            assert(self.atoms@.skip(0) =~= self.atoms@);
        }
        loop
            invariant
                ti <= e <= n,
                n == text@.len(),
                forall|e2: int|
                    e < e2 <= text@.len() ==> !spec_match(
                        self.atoms@,
                        text@.subrange(ti as int, e2),
                        true,
                    ),
            decreases e,
        {
            let sub = copy_range(text, ti, e);
            proof {
                assert(self.atoms@.skip(0) =~= self.atoms@);
                assert(sub@.skip(0) =~= sub@);
            }
            if match_from(&self.atoms, 0, &sub, 0, true) {
                return Some(e);
            }
            if e == ti {
                return None;
            }
            e = e - 1;
        }
    }
}

/// Scans the members of a character class from position `i` (just after
/// `[` and an optional `^`): the position after the closing `]`, or `None`
/// when the class never closes or holds a backwards range.
pub open spec fn scan_class(s: Seq<char>, i: int) -> Option<int>
    decreases s.len() - i,
{
    if i < 0 || i >= s.len() {
        None
    } else if s[i] == ']' {
        Some(i + 1)
    } else if i + 2 < s.len() && s[i + 1] == '-' && s[i + 2] != ']' {
        if s[i] <= s[i + 2] {
            scan_class(s, i + 3)
        } else {
            None
        }
    } else {
        scan_class(s, i + 1)
    }
}

/// A closed class ends after its opening position and within the text.
pub proof fn lemma_scan_class_advances(s: Seq<char>, i: int)
    requires
        scan_class(s, i) is Some,
    ensures
        i < scan_class(s, i)->0 <= s.len(),
    decreases s.len() - i,
{
    if 0 <= i < s.len() && s[i] != ']' {
        if i + 2 < s.len() && s[i + 1] == '-' && s[i + 2] != ']' {
            lemma_scan_class_advances(s, i + 3);
        } else {
            lemma_scan_class_advances(s, i + 1);
        }
    }
}

/// Whether the pattern text is well formed from position `i` on.
/// `prev` says whether a quantifier may stand at `i`.
pub open spec fn valid_from(s: Seq<char>, i: int, prev: bool) -> bool
    decreases s.len() - i,
{
    if i < 0 {
        false
    } else if i >= s.len() {
        true
    } else {
        let c = s[i];
        if c == '*' || c == '+' || c == '?' {
            prev && valid_from(s, i + 1, false)
        } else if c == '\\' {
            i + 1 < s.len() && valid_from(s, i + 2, true)
        } else if c == '[' {
            let j = if i + 1 < s.len() && s[i + 1] == '^' {
                i + 2
            } else {
                i + 1
            };
            match scan_class(s, j) {
                Some(e) => {
                    proof {
                        lemma_scan_class_advances(s, j);
                    }
                    valid_from(s, e, true)
                },
                None => false,
            }
        } else {
            valid_from(s, i + 1, true)
        }
    }
}

/// Whether the whole pattern text is well formed.
pub open spec fn pattern_valid(s: Seq<char>) -> bool {
    valid_from(s, if s.len() > 0 && s[0] == '^' { 1int } else { 0int }, false)
}

/// Builds the `ClassItem`s of a class body `s[i..]` up to its closing `]`.
fn compile_class(s: &Vec<char>, i: usize) -> (r: Option<(Vec<ClassItem>, usize)>)
    requires
        i <= s@.len(),
    ensures
        r is Some <==> scan_class(s@, i as int) is Some,
        r matches Some(p) ==> scan_class(s@, i as int) == Some(p.1 as int) && i < p.1 <= s@.len(),
    decreases s@.len() - i,
{
    proof {
        if scan_class(s@, i as int) is Some {
            lemma_scan_class_advances(s@, i as int);
        }
    }
    if i >= s.len() {
        None
    } else if s[i] == ']' {
        Some((Vec::new(), i + 1))
    } else if s.len() - i > 2 && s[i + 1] == '-' && s[i + 2] != ']' {
        if s[i] <= s[i + 2] {
            match compile_class(s, i + 3) {
                Some(p) => {
                    let (mut items, e) = p;
                    items.push(ClassItem::Range(s[i], s[i + 2]));
                    Some((items, e))
                },
                None => None,
            }
        } else {
            None
        }
    } else {
        match compile_class(s, i + 1) {
            Some(p) => {
                let (mut items, e) = p;
                items.push(ClassItem::Ch(s[i]));
                Some((items, e))
            },
            None => None,
        }
    }
}

impl Pattern {
    /// Compiles a pattern text; `None` exactly on malformed text
    /// (dangling quantifier, trailing `\`, unclosed or backwards class).
    /// The result remembers the text it was compiled from.
    #[verifier::rlimit(60)]
    pub fn compile(s: &Vec<char>) -> (r: Option<Pattern>)
        ensures
            r is Some <==> pattern_valid(s@),
            r matches Some(p) ==> p.source@ == s@,
    {
        let mut atoms: Vec<Atom> = Vec::new();
        let mut anchor_start = false;
        let mut anchor_end = false;
        let n = s.len();
        let mut i: usize = 0;
        let mut prev = false;
        if n > 0 && s[0] == '^' {
            anchor_start = true;
            i = 1;
        }
        loop
            invariant
                i <= n,
                n == s@.len(),
                pattern_valid(s@) == valid_from(s@, i as int, prev),
                prev ==> atoms@.len() > 0,
            decreases n - i,
        {
            if i >= n {
                return Some(Pattern { atoms, anchor_start, anchor_end, source: Ghost(s@) });
            }
            let c = s[i];
            if c == '*' || c == '+' || c == '?' {
                proof {
                    assert(valid_from(s@, i as int, prev) == (prev && valid_from(
                        s@,
                        i as int + 1,
                        false,
                    )));
                }
                if !prev {
                    return None;
                }
                let q = if c == '*' {
                    Quant::Star
                } else if c == '+' {
                    Quant::Plus
                } else {
                    Quant::Opt
                };
                let last = atoms.len() - 1;
                let kind = clone_kind(&atoms[last].kind);
                let _ = atoms.pop();
                atoms.push(Atom { kind, quant: q });
                i = i + 1;
                prev = false;
            } else if c == '\\' {
                proof {
                    assert(valid_from(s@, i as int, prev) == (i as int + 1 < s@.len()
                        && valid_from(s@, i as int + 2, true)));
                }
                if i + 1 >= n {
                    return None;
                }
                let esc = s[i + 1];
                push_atom(&mut atoms, AtomKind::Lit(esc));
                i = i + 2;
                prev = true;
            } else if c == '[' {
                let negated = i + 1 < n && s[i + 1] == '^';
                let j = if negated {
                    i + 2
                } else {
                    i + 1
                };
                proof {
                    let jj = if i as int + 1 < s@.len() && s@[i as int + 1] == '^' {
                        i as int + 2
                    } else {
                        i as int + 1
                    };
                    assert(jj == j as int);
                    match scan_class(s@, jj) {
                        Some(e) => {
                            assert(valid_from(s@, i as int, prev) == valid_from(s@, e, true));
                        },
                        None => {
                            assert(!valid_from(s@, i as int, prev));
                        },
                    }
                }
                if j > n {
                    return None;
                }
                match compile_class(s, j) {
                    Some(p) => {
                        let (items, e) = p;
                        push_atom(&mut atoms, AtomKind::Class { negated, items });
                        i = e;
                        prev = true;
                    },
                    None => {
                        return None;
                    },
                }
            } else if c == '.' {
                proof {
                    assert(valid_from(s@, i as int, prev) == valid_from(s@, i as int + 1, true));
                }
                push_atom(&mut atoms, AtomKind::Any);
                i = i + 1;
                prev = true;
            } else if c == '$' && i + 1 == n {
                proof {
                    assert(valid_from(s@, i as int, prev) == valid_from(s@, i as int + 1, true));
                    assert(valid_from(s@, i as int + 1, true));
                    assert(valid_from(s@, i as int + 1, false));
                }
                anchor_end = true;
                i = i + 1;
                prev = false;
            } else {
                proof {
                    assert(valid_from(s@, i as int, prev) == valid_from(s@, i as int + 1, true));
                }
                push_atom(&mut atoms, AtomKind::Lit(c));
                i = i + 1;
                prev = true;
            }
        }
    }
}


fn push_atom(atoms: &mut Vec<Atom>, kind: AtomKind)
    ensures
        final(atoms)@.len() == old(atoms)@.len() + 1,
{
    atoms.push(Atom { kind, quant: Quant::One });
}

fn clone_kind(k: &AtomKind) -> (r: AtomKind)
    ensures
        forall|c: char| atom_matches(r, c) == atom_matches(*k, c),
{
    match k {
        AtomKind::Lit(c) => AtomKind::Lit(*c),
        AtomKind::Any => AtomKind::Any,
        AtomKind::Class { negated, items } => {
            let mut out: Vec<ClassItem> = Vec::new();
            let nn = items.len();
            let mut i: usize = 0;
            while i < nn
                invariant
                    i <= nn,
                    nn == items@.len(),
                    out@ =~= items@.take(i as int),
                decreases nn - i,
            {
                out.push(items[i]);
                proof {
                    assert(items@.take(i as int).push(items@[i as int]) =~= items@.take(
                        i + 1 as int,
                    ));
                }
                i = i + 1;
            }
            proof {
                assert(items@.take(nn as int) =~= items@);
            }
            AtomKind::Class { negated: *negated, items: out }
        },
    }
}

/// The characters `text[from..to]` as a fresh vector.
fn copy_range(text: &Vec<char>, from: usize, to: usize) -> (r: Vec<char>)
    requires
        from <= to <= text@.len(),
    ensures
        r@ == text@.subrange(from as int, to as int),
{
    let mut r: Vec<char> = Vec::new();
    let mut i: usize = from;
    while i < to
        invariant
            from <= i <= to,
            to <= text@.len(),
            r@ =~= text@.subrange(from as int, i as int),
        decreases to - i,
    {
        r.push(text[i]);
        proof {
            assert(text@.subrange(from as int, i as int).push(text@[i as int]) =~= text@.subrange(
                from as int,
                i + 1 as int,
            ));
        }
        i = i + 1;
    }
    r
}


/// The end of the longest match of the pattern body that starts at `i` and
/// ends at or before `e`, or `-1` when none matches.
pub open spec fn best_end_from(atoms: Seq<Atom>, text: Seq<char>, i: int, e: int) -> int
    decreases e - i + 1,
{
    if e < i || i < 0 || e > text.len() {
        -1
    } else if spec_match(atoms, text.subrange(i, e), true) {
        e
    } else {
        best_end_from(atoms, text, i, e - 1)
    }
}

#[verifier::rlimit(60)]
#[verifier::spinoff_prover]
pub proof fn lemma_best_end_from(atoms: Seq<Atom>, text: Seq<char>, i: int, e: int)
    requires
        0 <= i <= e <= text.len(),
    ensures
        best_end_from(atoms, text, i, e) >= 0 ==> i <= best_end_from(atoms, text, i, e) <= e
            && spec_match(
            atoms,
            text.subrange(i, best_end_from(atoms, text, i, e)),
            true,
        ) && forall|e2: int|
            best_end_from(atoms, text, i, e) < e2 <= e ==> !spec_match(
                atoms,
                #[trigger] text.subrange(i, e2),
                true,
            ),
        best_end_from(atoms, text, i, e) < 0 ==> forall|e2: int|
            i <= e2 <= e ==> !spec_match(atoms, #[trigger] text.subrange(i, e2), true),
    decreases e - i + 1,
{
    if !spec_match(atoms, text.subrange(i, e), true) {
        if e == i {
            assert(best_end_from(atoms, text, i, e - 1) == -1);
            assert(best_end_from(atoms, text, i, e) == -1);
        }
        if e > i {
            lemma_best_end_from(atoms, text, i, e - 1);
            let r = best_end_from(atoms, text, i, e);
            assert(r == best_end_from(atoms, text, i, e - 1));
            if r >= 0 {
                assert forall|e2: int| r < e2 <= e implies !spec_match(
                    atoms,
                    #[trigger] text.subrange(i, e2),
                    true,
                ) by {
                    if e2 < e {
                        assert(!spec_match(atoms, text.subrange(i, e2), true));
                    }
                }
            } else {
                assert forall|e2: int| i <= e2 <= e implies !spec_match(
                    atoms,
                    #[trigger] text.subrange(i, e2),
                    true,
                ) by {
                    if e2 < e {
                        assert(!spec_match(atoms, text.subrange(i, e2), true));
                    }
                }
            }
        }
    }
}

impl Pattern {
    /// The longest match as `best_end_from` sees it: the two agree.
    pub fn longest_end(&self, text: &Vec<char>, ti: usize) -> (r: Option<usize>)
        requires
            ti <= text@.len(),
        ensures
            match r {
                Some(e) => best_end_from(self.atoms@, text@, ti as int, text@.len() as int)
                    == e as int && ti <= e <= text@.len(),
                None => best_end_from(self.atoms@, text@, ti as int, text@.len() as int) < 0,
            },
    {
        let r = self.longest_match_at(text, ti);
        proof {
            lemma_best_end_from(self.atoms@, text@, ti as int, text@.len() as int);
            let be = best_end_from(self.atoms@, text@, ti as int, text@.len() as int);
            match r {
                Some(e) => {
                    assert(spec_match(self.atoms@, text@.subrange(ti as int, e as int), true));
                    assert(be >= 0);
                    assert(be == e as int) by {
                        if be < e as int {
                            assert(!spec_match(
                                self.atoms@,
                                text@.subrange(ti as int, e as int),
                                true,
                            ));
                        }
                        if be > e as int {
                            assert(!spec_match(self.atoms@, text@.subrange(ti as int, be), true));
                        }
                    }
                },
                None => {
                    assert(be < 0) by {
                        if be >= 0 {
                            assert(spec_match(self.atoms@, text@.subrange(ti as int, be), true));
                        }
                    }
                },
            }
        }
        r
    }
}

/// All non-empty, non-overlapping leftmost-longest matches from `i` on.
pub open spec fn matches_from(atoms: Seq<Atom>, text: Seq<char>, i: int) -> Seq<Seq<char>>
    decreases text.len() - i,
{
    if i < 0 || i >= text.len() {
        Seq::<Seq<char>>::empty()
    } else {
        let be = best_end_from(atoms, text, i, text.len() as int);
        if be <= i {
            matches_from(atoms, text, i + 1)
        } else {
            proof {
                lemma_matches_bound(atoms, text, i);
            }
            seq![text.subrange(i, be)] + matches_from(atoms, text, be)
        }
    }
}

pub proof fn lemma_matches_bound(atoms: Seq<Atom>, text: Seq<char>, i: int)
    requires
        0 <= i < text.len(),
    ensures
        best_end_from(atoms, text, i, text.len() as int) <= text.len(),
{
    lemma_best_end_from(atoms, text, i, text.len() as int);
}

/// The text with every leftmost-longest match replaced; an empty match
/// keeps the character under it and moves on.
pub open spec fn replace_from(atoms: Seq<Atom>, text: Seq<char>, repl: Seq<char>, i: int) -> Seq<
    char,
>
    decreases text.len() - i,
{
    if i < 0 || i >= text.len() {
        Seq::<char>::empty()
    } else {
        let be = best_end_from(atoms, text, i, text.len() as int);
        if be < i {
            seq![text[i]] + replace_from(atoms, text, repl, i + 1)
        } else if be == i {
            repl + seq![text[i]] + replace_from(atoms, text, repl, i + 1)
        } else {
            proof {
                lemma_matches_bound(atoms, text, i);
            }
            repl + replace_from(atoms, text, repl, be)
        }
    }
}

impl Pattern {
    /// All matches of the pattern body in the text, leftmost-longest,
    /// non-empty and non-overlapping.
    pub fn find_all(&self, text: &Vec<char>) -> (r: Vec<Vec<char>>)
        ensures
            r.deep_view() == matches_from(self.atoms@, text@, 0),
    {
        let n = text.len();
        let mut out: Vec<Vec<char>> = Vec::new();
        let mut i: usize = 0;
        proof {
            assert(out.deep_view() + matches_from(self.atoms@, text@, 0) =~~= matches_from(
                self.atoms@,
                text@,
                0,
            ));
        }
        while i < n
            invariant
                i <= n,
                n == text@.len(),
                out.deep_view() + matches_from(self.atoms@, text@, i as int) =~~= matches_from(
                    self.atoms@,
                    text@,
                    0,
                ),
            decreases n - i,
        {
            match self.longest_end(text, i) {
                Some(e) => {
                    if e > i {
                        let piece = copy_range(text, i, e);
                        let ghost pre = out.deep_view();
                        out.push(piece);
                        proof {
                            assert(out.deep_view() =~~= pre.push(text@.subrange(
                                i as int,
                                e as int,
                            )));
                        }
                        i = e;
                    } else {
                        i = i + 1;
                    }
                },
                None => {
                    i = i + 1;
                },
            }
        }
        proof {
            assert(matches_from(self.atoms@, text@, n as int) =~~= Seq::<Seq<char>>::empty());
        }
        out
    }

    /// The text with every match replaced.
    pub fn replace_all(&self, text: &Vec<char>, repl: &Vec<char>) -> (r: Vec<char>)
        ensures
            r@ == replace_from(self.atoms@, text@, repl@, 0),
    {
        let n = text.len();
        let mut out: Vec<char> = Vec::new();
        let mut i: usize = 0;
        proof {
            assert(out@ + replace_from(self.atoms@, text@, repl@, 0) =~= replace_from(
                self.atoms@,
                text@,
                repl@,
                0,
            ));
        }
        while i < n
            invariant
                i <= n,
                n == text@.len(),
                out@ + replace_from(self.atoms@, text@, repl@, i as int) =~= replace_from(
                    self.atoms@,
                    text@,
                    repl@,
                    0,
                ),
            decreases n - i,
        {
            match self.longest_end(text, i) {
                Some(e) => {
                    if e > i {
                        let mut k: usize = 0;
                        let rn = repl.len();
                        let ghost pre = out@;
                        while k < rn
                            invariant
                                k <= rn,
                                rn == repl@.len(),
                                out@ =~= pre + repl@.take(k as int),
                            decreases rn - k,
                        {
                            out.push(repl[k]);
                            proof {
                                assert(pre + repl@.take(k as int + 1) =~= (pre + repl@.take(
                                    k as int,
                                )).push(repl@[k as int]));
                            }
                            k = k + 1;
                        }
                        proof {
                            assert(repl@.take(rn as int) =~= repl@);
                        }
                        i = e;
                    } else {
                        let mut k: usize = 0;
                        let rn = repl.len();
                        let ghost pre = out@;
                        while k < rn
                            invariant
                                k <= rn,
                                rn == repl@.len(),
                                out@ =~= pre + repl@.take(k as int),
                            decreases rn - k,
                        {
                            out.push(repl[k]);
                            proof {
                                assert(pre + repl@.take(k as int + 1) =~= (pre + repl@.take(
                                    k as int,
                                )).push(repl@[k as int]));
                            }
                            k = k + 1;
                        }
                        proof {
                            assert(repl@.take(rn as int) =~= repl@);
                        }
                        out.push(text[i]);
                        i = i + 1;
                    }
                },
                None => {
                    out.push(text[i]);
                    i = i + 1;
                },
            }
        }
        proof {
            assert(replace_from(self.atoms@, text@, repl@, n as int) =~= Seq::<char>::empty());
        }
        out
    }
}

} // verus!
