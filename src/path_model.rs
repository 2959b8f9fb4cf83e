use vstd::prelude::*;

verus! {

/// A path as a value: whether it starts at the file-system root, and its
/// normalized segments (no empty segment, no `.`; `..` is kept as written).
pub struct PathValue {
    pub absolute: bool,
    pub segments: Seq<Seq<char>>,
}

/// The pieces of `s` between separators, in order; `n` separators give `n + 1` pieces.
pub open spec fn split_on_slash(s: Seq<char>) -> Seq<Seq<char>>
    decreases s.len(),
{
    if s.len() == 0 {
        seq![Seq::empty()]
    } else {
        let init = split_on_slash(s.drop_last());
        if s.last() == '/' {
            init.push(Seq::empty())
        } else {
            init.update(init.len() - 1, init.last().push(s.last()))
        }
    }
}

/// A piece that names something: not empty and not the current directory.
pub open spec fn is_named(x: Seq<char>) -> bool {
    x.len() > 0 && x != seq!['.']
}

/// The named pieces of `raw`, in order.
pub open spec fn named_only(raw: Seq<Seq<char>>) -> Seq<Seq<char>>
    decreases raw.len(),
{
    if raw.len() == 0 {
        Seq::empty()
    } else if is_named(raw.last()) {
        named_only(raw.drop_last()).push(raw.last())
    } else {
        named_only(raw.drop_last())
    }
}

pub open spec fn starts_at_root(s: Seq<char>) -> bool {
    s.len() > 0 && s[0] == '/'
}

/// The path that the text `s` denotes.
pub open spec fn path_of(s: Seq<char>) -> PathValue {
    PathValue { absolute: starts_at_root(s), segments: named_only(split_on_slash(s)) }
}

/// The segments written one after another with a separator between two of them.
pub open spec fn joined(segs: Seq<Seq<char>>) -> Seq<char>
    decreases segs.len(),
{
    if segs.len() == 0 {
        Seq::empty()
    } else if segs.len() == 1 {
        segs[0]
    } else {
        joined(segs.drop_last()) + seq!['/'] + segs.last()
    }
}

/// The canonical text of a path: a leading separator when it is absolute,
/// then its segments joined by separators.
pub open spec fn text_of(p: PathValue) -> Seq<char> {
    if p.absolute {
        seq!['/'] + joined(p.segments)
    } else {
        joined(p.segments)
    }
}

/// `q` is `p` or one of its ancestors: same origin, and its segments begin `p`'s.
pub open spec fn is_ancestor_or_self(q: PathValue, p: PathValue) -> bool {
    q.absolute == p.absolute && q.segments.is_prefix_of(p.segments)
}

pub open spec fn has_parent_value(p: PathValue) -> bool {
    p.segments.len() > 0
}

pub open spec fn parent_value(p: PathValue) -> PathValue {
    PathValue { absolute: p.absolute, segments: p.segments.drop_last() }
}

/// The views of a sequence of strings.
pub open spec fn views(v: Seq<String>) -> Seq<Seq<char>> {
    v.map_values(|x: String| x@)
}

/// A path held as its origin and its segments.
pub struct PathParts {
    pub absolute: bool,
    pub segments: Vec<String>,
}

impl View for PathParts {
    type V = PathValue;

    open spec fn view(&self) -> PathValue {
        PathValue { absolute: self.absolute, segments: views(self.segments@) }
    }
}

pub proof fn lemma_split_nonempty(s: Seq<char>)
    ensures
        split_on_slash(s).len() >= 1,
    decreases s.len(),
{
    if s.len() > 0 {
        lemma_split_nonempty(s.drop_last());
    }
}

/// A segment as it can stand in a normalized path.
pub open spec fn is_segment(x: Seq<char>) -> bool {
    is_named(x) && !x.contains('/')
}

pub open spec fn is_normalized(p: PathValue) -> bool {
    forall|i: int| 0 <= i < p.segments.len() ==> is_segment(#[trigger] p.segments[i])
}

/// Every piece of a split holds no separator.
proof fn lemma_split_pieces(s: Seq<char>)
    ensures
        forall|i: int|
            0 <= i < split_on_slash(s).len() ==> !(#[trigger] split_on_slash(s)[i]).contains('/'),
    decreases s.len(),
{
    if s.len() > 0 {
        let init = split_on_slash(s.drop_last());
        lemma_split_pieces(s.drop_last());
        lemma_split_nonempty(s.drop_last());
        if s.last() != '/' {
            let l = init.last();
            assert forall|i: int| 0 <= i < split_on_slash(s).len() implies !(
            #[trigger] split_on_slash(s)[i]).contains('/') by {
                if i == init.len() - 1 {
                    let x = l.push(s.last());
                    assert(!l.contains('/'));
                    if x.contains('/') {
                        let k = choose|k: int| 0 <= k < x.len() && x[k] == '/';
                        if k < l.len() {
                            assert(l[k] == '/');
                        }
                    }
                }
            }
        }
    }
}

proof fn lemma_named_only_segments(raw: Seq<Seq<char>>)
    requires
        forall|i: int| 0 <= i < raw.len() ==> !(#[trigger] raw[i]).contains('/'),
    ensures
        forall|i: int|
            0 <= i < named_only(raw).len() ==> is_segment(#[trigger] named_only(raw)[i]),
    decreases raw.len(),
{
    if raw.len() > 0 {
        let init = raw.drop_last();
        assert forall|i: int| 0 <= i < init.len() implies !(#[trigger] init[i]).contains('/') by {
            assert(init[i] == raw[i]);
        }
        lemma_named_only_segments(init);
        assert(!raw[raw.len() - 1].contains('/'));
        if is_named(raw.last()) {
            let r = named_only(raw);
            assert(r == named_only(init).push(raw.last()));
            assert forall|i: int| 0 <= i < r.len() implies is_segment(#[trigger] r[i]) by {
                if i < r.len() - 1 {
                    assert(r[i] == named_only(init)[i]);
                }
            }
        }
    }
}

/// The path that any text denotes is normalized.
pub proof fn lemma_path_of_normalized(s: Seq<char>)
    ensures
        is_normalized(path_of(s)),
{
    lemma_split_pieces(s);
    lemma_named_only_segments(split_on_slash(s));
}

/// Splitting a text that ends in a separator and a piece without one adds that piece.
proof fn lemma_split_after_separator(a: Seq<char>, x: Seq<char>)
    requires
        !x.contains('/'),
    ensures
        split_on_slash(a + seq!['/'] + x) == split_on_slash(a).push(x),
    decreases x.len(),
{
    let w = a + seq!['/'] + x;
    if x.len() == 0 {
        assert(w.drop_last() =~= a);
        assert(w.last() == '/');
        assert(x =~= Seq::<char>::empty());
    } else {
        let y = x.drop_last();
        assert(!y.contains('/')) by {
            if y.contains('/') {
                let k = choose|k: int| 0 <= k < y.len() && y[k] == '/';
                assert(x[k] == '/');
            }
        }
        lemma_split_after_separator(a, y);
        assert(w.drop_last() =~= a + seq!['/'] + y);
        assert(w.last() == x.last());
        assert(x.last() != '/') by {
            assert(x[x.len() - 1] == x.last());
        }
        assert(y.push(x.last()) =~= x);
        assert(split_on_slash(w) =~= split_on_slash(a).push(x));
    }
}

/// A piece without separator splits into itself.
proof fn lemma_split_single(x: Seq<char>)
    requires
        !x.contains('/'),
    ensures
        split_on_slash(x) == seq![x],
    decreases x.len(),
{
    if x.len() > 0 {
        let y = x.drop_last();
        assert(!y.contains('/')) by {
            if y.contains('/') {
                let k = choose|k: int| 0 <= k < y.len() && y[k] == '/';
                assert(x[k] == '/');
            }
        }
        lemma_split_single(y);
        assert(x.last() != '/') by {
            assert(x[x.len() - 1] == x.last());
        }
        assert(y.push(x.last()) =~= x);
        assert(split_on_slash(x) =~= seq![x]);
    } else {
        assert(x =~= Seq::<char>::empty());
    }
}

/// Joined segments split back into the same segments, after an empty piece
/// for a leading separator.
proof fn lemma_split_joined(segs: Seq<Seq<char>>, lead: bool)
    requires
        segs.len() > 0,
        forall|i: int| 0 <= i < segs.len() ==> is_segment(#[trigger] segs[i]),
    ensures
        lead ==> split_on_slash(seq!['/'] + joined(segs)) == seq![Seq::<char>::empty()] + segs,
        !lead ==> split_on_slash(joined(segs)) == segs,
    decreases segs.len(),
{
    let x = segs.last();
    assert(is_segment(segs[segs.len() - 1]));
    if segs.len() == 1 {
        if lead {
            lemma_split_after_separator(Seq::empty(), x);
            assert(Seq::<char>::empty() + seq!['/'] + x =~= seq!['/'] + joined(segs));
            assert(split_on_slash(Seq::<char>::empty()) =~= seq![Seq::<char>::empty()]);
            assert(seq![Seq::<char>::empty()].push(x) =~= seq![Seq::<char>::empty()] + segs);
        } else {
            lemma_split_single(x);
            assert(seq![x] =~= segs);
        }
    } else {
        let init = segs.drop_last();
        assert forall|i: int| 0 <= i < init.len() implies is_segment(#[trigger] init[i]) by {
            assert(init[i] == segs[i]);
        }
        lemma_split_joined(init, lead);
        if lead {
            lemma_split_after_separator(seq!['/'] + joined(init), x);
            assert(seq!['/'] + joined(segs) =~= (seq!['/'] + joined(init)) + seq!['/'] + x);
            assert((seq![Seq::<char>::empty()] + init).push(x) =~= seq![Seq::<char>::empty()]
                + segs);
        } else {
            lemma_split_after_separator(joined(init), x);
            assert(init.push(x) =~= segs);
        }
    }
}

/// Named pieces are all kept, and empty ones dropped.
proof fn lemma_named_only_keeps_segments(segs: Seq<Seq<char>>)
    requires
        forall|i: int| 0 <= i < segs.len() ==> is_segment(#[trigger] segs[i]),
    ensures
        named_only(segs) == segs,
        named_only(seq![Seq::<char>::empty()] + segs) == segs,
    decreases segs.len(),
{
    if segs.len() == 0 {
        let one = seq![Seq::<char>::empty()];
        assert(one + segs =~= one);
        assert(one.drop_last() =~= Seq::<Seq<char>>::empty());
        assert(!is_named(one.last()));
    } else {
        let init = segs.drop_last();
        assert forall|i: int| 0 <= i < init.len() implies is_segment(#[trigger] init[i]) by {
            assert(init[i] == segs[i]);
        }
        lemma_named_only_keeps_segments(init);
        assert(is_segment(segs[segs.len() - 1]));
        assert(init.push(segs.last()) =~= segs);
        let led = seq![Seq::<char>::empty()] + segs;
        assert(led.drop_last() =~= seq![Seq::<char>::empty()] + init);
        assert(led.last() == segs.last());
    }
}

/// The first character of joined segments is the first character of the first segment.
proof fn lemma_joined_first(segs: Seq<Seq<char>>)
    requires
        segs.len() > 0,
        segs[0].len() > 0,
    ensures
        joined(segs).len() > 0,
        joined(segs)[0] == segs[0][0],
    decreases segs.len(),
{
    if segs.len() > 1 {
        let init = segs.drop_last();
        assert(init[0] == segs[0]);
        lemma_joined_first(init);
    }
}

/// Pieces that are all empty name nothing.
proof fn lemma_named_only_of_empty_pieces(raw: Seq<Seq<char>>)
    requires
        forall|i: int| 0 <= i < raw.len() ==> #[trigger] raw[i] == Seq::<char>::empty(),
    ensures
        named_only(raw) == Seq::<Seq<char>>::empty(),
    decreases raw.len(),
{
    if raw.len() > 0 {
        let init = raw.drop_last();
        assert forall|i: int| 0 <= i < init.len() implies #[trigger] init[i]
            == Seq::<char>::empty() by {
            assert(init[i] == raw[i]);
        }
        lemma_named_only_of_empty_pieces(init);
        assert(raw[raw.len() - 1] == Seq::<char>::empty());
        assert(!is_named(raw.last()));
    }
}

/// An ancestor of a normalized path is normalized.
pub proof fn lemma_ancestor_normalized(q: PathValue, p: PathValue)
    requires
        is_normalized(p),
        is_ancestor_or_self(q, p),
    ensures
        is_normalized(q),
{
    assert forall|i: int| 0 <= i < q.segments.len() implies is_segment(#[trigger] q.segments[i]) by {
        assert(q.segments[i] == p.segments.subrange(0, q.segments.len() as int)[i]);
        assert(is_segment(p.segments[i]));
    }
}

/// The canonical text of a normalized path reads back as that path.
pub proof fn lemma_text_round_trip(p: PathValue)
    requires
        is_normalized(p),
    ensures
        path_of(text_of(p)) == p,
{
    let segs = p.segments;
    if segs.len() == 0 {
        if p.absolute {
            let t = seq!['/'] + joined(segs);
            assert(t =~= seq!['/']);
            assert(t.drop_last() =~= Seq::<char>::empty());
            assert(t.last() == '/');
            assert(split_on_slash(Seq::<char>::empty()) == seq![Seq::<char>::empty()]);
            assert(split_on_slash(t) =~= seq![Seq::<char>::empty(), Seq::<char>::empty()]);
            let two = split_on_slash(t);
            assert(two.drop_last() =~= seq![Seq::<char>::empty()]);
            assert(seq![Seq::<char>::empty()].drop_last() =~= Seq::<Seq<char>>::empty());
            lemma_named_only_of_empty_pieces(two);
        } else {
            assert(seq![Seq::<char>::empty()].drop_last() =~= Seq::<Seq<char>>::empty());
            assert(text_of(p) =~= Seq::<char>::empty());
            assert(split_on_slash(Seq::<char>::empty()) == seq![Seq::<char>::empty()]);
            lemma_named_only_of_empty_pieces(seq![Seq::<char>::empty()]);
        }
    } else {
        lemma_split_joined(segs, p.absolute);
        lemma_named_only_keeps_segments(segs);
        if !p.absolute {
            assert(is_segment(segs[0]));
            lemma_joined_first(segs);
            assert(!segs[0].contains('/'));
            assert(joined(segs)[0] != '/') by {
                if joined(segs)[0] == '/' {
                    assert(segs[0][0] == '/');
                }
            }
        }
    }
    assert(path_of(text_of(p)).segments =~= segs);
}

/// Whether a piece names something.
fn piece_is_named(x: &str) -> (r: bool)
    ensures
        r == is_named(x@),
{
    let n = x.unicode_len();
    if n == 0 {
        false
    } else if n == 1 {
        let c = x.get_char(0);
        if c == '.' {
            assert(x@ =~= seq!['.']);
        } else {
            assert(x@[0] != seq!['.'][0]);
        }
        c != '.'
    } else {
        assert(x@.len() != seq!['.'].len());
        true
    }
}

impl PathParts {
    /// Reads a path out of its text.
    pub fn parse(s: &str) -> (r: PathParts)
        ensures
            r@ == path_of(s@),
    {
        let n = s.unicode_len();
        let mut segments: Vec<String> = Vec::new();
        let mut start: usize = 0;
        let mut i: usize = 0;
        proof {
            assert(s@.take(0) =~= Seq::<char>::empty());
            assert(s@.subrange(0, 0) =~= Seq::<char>::empty());
        }
        while i < n
            invariant
                n == s@.len(),
                start <= i <= n,
                split_on_slash(s@.take(i as int)).last() == s@.subrange(start as int, i as int),
                views(segments@) == named_only(split_on_slash(s@.take(i as int)).drop_last()),
            decreases n - i,
        {
            let ghost before = split_on_slash(s@.take(i as int));
            proof {
                lemma_split_nonempty(s@.take(i as int));
                assert(s@.take(i + 1).drop_last() =~= s@.take(i as int));
                assert(s@.take(i + 1).last() == s@[i as int]);
            }
            let c = s.get_char(i);
            if c == '/' {
                let piece = s.substring_char(start, i);
                proof {
                    assert(split_on_slash(s@.take(i + 1)) == before.push(Seq::empty()));
                    assert(split_on_slash(s@.take(i + 1)).drop_last() =~= before);
                    assert(before =~= before.drop_last().push(piece@));
                }
                if piece_is_named(piece) {
                    segments.push(String::from_str(piece));
                    proof {
                        assert(views(segments@) =~= views(segments@).drop_last().push(piece@));
                        assert(views(segments@).drop_last() =~= named_only(before.drop_last()));
                    }
                }
                start = i + 1;
                proof {
                    assert(s@.subrange(start as int, i + 1) =~= Seq::<char>::empty());
                }
            } else {
                proof {
                    let after = split_on_slash(s@.take(i + 1));
                    assert(after == before.update(before.len() - 1, before.last().push(c)));
                    assert(after.drop_last() =~= before.drop_last());
                    assert(s@.subrange(start as int, i + 1) =~= s@.subrange(
                        start as int,
                        i as int,
                    ).push(c));
                }
            }
            i = i + 1;
        }
        let piece = s.substring_char(start, n);
        proof {
            let all = split_on_slash(s@);
            assert(s@.take(n as int) =~= s@);
            lemma_split_nonempty(s@);
            assert(all.drop_last().push(piece@) =~= all);
            assert(all.last() == piece@);
        }
        if piece_is_named(piece) {
            segments.push(String::from_str(piece));
            proof {
                let all = split_on_slash(s@);
                assert(views(segments@) =~= views(segments@).drop_last().push(piece@));
                assert(views(segments@).drop_last() =~= named_only(all.drop_last()));
            }
        }
        proof {
            let all = split_on_slash(s@);
            if is_named(piece@) {
                assert(named_only(all) == named_only(all.drop_last()).push(piece@));
            } else {
                assert(named_only(all) == named_only(all.drop_last()));
            }
        }
        let absolute = n > 0 && s.get_char(0) == '/';
        PathParts { absolute, segments }
    }

    /// A copy of this path.
    pub fn copy(&self) -> (r: PathParts)
        ensures
            r@ == self@,
    {
        let mut segments: Vec<String> = Vec::new();
        let mut i: usize = 0;
        while i < self.segments.len()
            invariant
                i <= self.segments@.len(),
                views(segments@) == views(self.segments@).take(i as int),
            decreases self.segments@.len() - i,
        {
            let piece: &String = &self.segments[i];
            let x = piece.clone();
            let ghost prev = segments@;
            segments.push(x);
            proof {
                assert(x == self.segments@[i as int]);
                assert(segments@ == prev.push(x));
                assert(views(segments@) =~= views(prev).push(x@));
                assert(views(self.segments@).take(i + 1) =~= views(self.segments@).take(
                    i as int,
                ).push(x@));
            }
            i = i + 1;
        }
        proof {
            assert(views(self.segments@).take(i as int) =~= views(self.segments@));
        }
        PathParts { absolute: self.absolute, segments }
    }

    /// The canonical text of this path.
    pub fn render(&self) -> (r: String)
        ensures
            r@ == text_of(self@),
    {
        let mut out = String::new();
        let ghost lead: Seq<char> = if self.absolute {
            seq!['/']
        } else {
            Seq::empty()
        };
        if self.absolute {
            out.append("/");
            proof {
                reveal_strlit("/");
            }
        }
        let mut i: usize = 0;
        let n = self.segments.len();
        proof {
            assert(views(self.segments@).take(0) =~= Seq::<Seq<char>>::empty());
            assert(out@ =~= lead + joined(Seq::empty()));
        }
        while i < n
            invariant
                n == self.segments@.len(),
                i <= n,
                out@ == lead + joined(views(self.segments@).take(i as int)),
                lead == (if self.absolute {
                    seq!['/']
                } else {
                    Seq::empty()
                }),
            decreases n - i,
        {
            let ghost segs = views(self.segments@);
            let ghost prev = out@;
            proof {
                assert(segs.take(i + 1).drop_last() =~= segs.take(i as int));
            }
            if i > 0 {
                out.append("/");
                proof {
                    reveal_strlit("/");
                }
            }
            out.append(self.segments[i].as_str());
            proof {
                if i == 0 {
                    assert(out@ =~= lead + joined(segs.take(1)));
                } else {
                    assert(out@ =~= lead + (joined(segs.take(i as int)) + seq!['/']
                        + self.segments@[i as int]@));
                }
            }
            i = i + 1;
        }
        proof {
            assert(views(self.segments@).take(n as int) =~= views(self.segments@));
        }
        out
    }
}

} // verus!
