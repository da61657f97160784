use crate::error::MccabreError;
use crate::rolling_hash::{
    lemma_roll_window, poly_hash, token_hash, token_hash_spec, RollingHash,
};
use crate::text::str_eq;
use crate::tokenizer::{
    is_significant_kind, spec_tokens, token_views, Language, Token, Tokenizer, TokenV,
};
use vstd::multiset::Multiset;
use vstd::prelude::*;

verus! {

/// The significant tokens of a token sequence: what clone detection
/// works on.
pub open spec fn sig_tokens(ts: Seq<TokenV>) -> Seq<TokenV> {
    ts.filter(|t: TokenV| is_significant_kind(t.token_type))
}

/// The significant tokens of a source text.
pub open spec fn spec_sig(src: Seq<char>) -> Seq<TokenV> {
    sig_tokens(spec_tokens(src))
}

/// The hash of each significant token's text, in order.
pub open spec fn sig_hashes(src: Seq<char>) -> Seq<u64> {
    spec_sig(src).map_values(|t: TokenV| token_hash_spec(t.text))
}

/// The rolling hash of the window of `ws` significant tokens starting
/// at index `i`.
pub open spec fn window_hash(src: Seq<char>, i: int, ws: int) -> int {
    poly_hash(sig_hashes(src).subrange(i, i + ws))
}

/// Whether a window of `ws` significant tokens starts at index `i`.
pub open spec fn valid_window(src: Seq<char>, i: int, ws: int) -> bool {
    0 <= i && ws >= 1 && i + ws <= spec_sig(src).len()
}

/// How many windows of size `ws` the text has.
pub open spec fn window_count(src: Seq<char>, ws: int) -> int {
    if spec_sig(src).len() < ws {
        0
    } else {
        spec_sig(src).len() - ws + 1
    }
}

/// One window occurrence: its hash, the file it came from, and the
/// source lines its tokens span.
pub ghost struct RecV {
    pub hash: int,
    pub file: Seq<char>,
    pub start: int,
    pub end: int,
}

/// The record of window `j` of a file.
pub open spec fn window_rec(path: Seq<char>, src: Seq<char>, ws: int, j: int) -> RecV {
    RecV {
        hash: window_hash(src, j, ws),
        file: path,
        start: spec_sig(src)[j].line as int,
        end: spec_sig(src)[j + ws - 1].line as int,
    }
}

/// All window records of one file, in sliding order.
pub open spec fn file_recs(path: Seq<char>, src: Seq<char>, ws: int) -> Seq<RecV> {
    Seq::new(window_count(src, ws) as nat, |j: int| window_rec(path, src, ws, j))
}

/// A location as the mathematics sees it.
pub open spec fn loc_view(l: CloneLocation) -> (Seq<char>, int, int) {
    (l.file@, l.start_line as int, l.end_line as int)
}

/// The views of a location list.
pub open spec fn loc_views(ls: Seq<CloneLocation>) -> Seq<(Seq<char>, int, int)> {
    ls.map_values(|l: CloneLocation| loc_view(l))
}

/// The place a record names.
pub open spec fn rec_loc(r: RecV) -> (Seq<char>, int, int) {
    (r.file, r.start, r.end)
}

/// The records of `recs` whose hash is `h`, as locations.
pub open spec fn recs_with_hash(recs: Seq<RecV>, h: int) -> Seq<(Seq<char>, int, int)> {
    recs.filter(|r: RecV| r.hash == h).map_values(|r: RecV| rec_loc(r))
}

/// The accumulator is a faithful index of the records seen so far: one
/// entry per distinct hash value, carrying exactly the locations of the
/// windows that hashed to it, in order.
pub open spec fn map_ok(entries: Seq<(u64, Vec<CloneLocation>)>, recs: Seq<RecV>) -> bool {
    &&& forall|m1: int, m2: int|
        0 <= m1 < m2 < entries.len() ==> (#[trigger] entries[m1]).0 != (#[trigger] entries[m2]).0
    &&& forall|m: int|
        0 <= m < entries.len() ==> loc_views((#[trigger] entries[m]).1@) == recs_with_hash(
            recs,
            entries[m].0 as int,
        )
    &&& forall|m: int| 0 <= m < entries.len() ==> (#[trigger] entries[m]).1@.len() >= 1
    &&& forall|j: int|
        0 <= j < recs.len() ==> exists|m: int|
            0 <= m < entries.len() && (#[trigger] entries[m]).0 as int == (
            #[trigger] recs[j]).hash
}

/// A detected clone group: two or more places whose significant-token
/// windows hashed alike.
#[derive(Debug, Clone)]
pub struct Clone {
    /// Identifier of this group.
    pub id: usize,
    /// Number of significant tokens each occurrence spans.
    pub length: usize,
    /// All places the window hash recurred.
    pub locations: Vec<CloneLocation>,
    /// The shared hash value.
    pub hash: u64,
}

/// One place a clone occurs.
#[derive(Debug, Clone, PartialEq, Eq)]
pub struct CloneLocation {
    /// File path.
    pub file: String,
    /// Line of the window's first token.
    pub start_line: usize,
    /// Line of the window's last token.
    pub end_line: usize,
}

/// Detects duplicated stretches of significant tokens via a rolling
/// hash over a fixed-size window.
pub struct CloneDetector {
    /// Minimum number of tokens to report as a clone.
    _min_tokens: usize,
    /// Window size for the rolling hash.
    window_size: usize,
}

/// Each element of a filtered sequence comes from the original.
proof fn lemma_filter_elem<A>(s: Seq<A>, pred: spec_fn(A) -> bool, l: int)
    requires
        0 <= l < s.filter(pred).len(),
    ensures
        exists|x: int| 0 <= x < s.len() && #[trigger] s[x] == s.filter(pred)[l],
    decreases s.len(),
{
    reveal(Seq::filter);
    if s.len() > 0 {
        if pred(s.last()) && l == s.filter(pred).len() - 1 {
            assert(s[s.len() - 1] == s.filter(pred)[l]);
        } else {
            lemma_filter_elem(s.drop_last(), pred, l);
            let x = choose|x: int|
                0 <= x < s.drop_last().len() && #[trigger] s.drop_last()[x] == s.drop_last().filter(
                    pred,
                )[l];
            assert(s[x] == s.filter(pred)[l]);
        }
    }
}

/// One satisfying position makes the filtered sequence non-empty.
proof fn lemma_filter_one<A>(s: Seq<A>, pred: spec_fn(A) -> bool, i: int)
    requires
        0 <= i < s.len(),
        pred(s[i]),
    ensures
        s.filter(pred).len() >= 1,
    decreases s.len(),
{
    reveal(Seq::filter);
    if s.len() > 0 {
        if i == s.len() - 1 {
        } else {
            lemma_filter_one(s.drop_last(), pred, i);
        }
    }
}

/// Two distinct satisfying positions give the filter at least two
/// elements.
proof fn lemma_filter_two<A>(s: Seq<A>, pred: spec_fn(A) -> bool, i: int, j: int)
    requires
        0 <= i < j < s.len(),
        pred(s[i]),
        pred(s[j]),
    ensures
        s.filter(pred).len() >= 2,
    decreases s.len(),
{
    reveal(Seq::filter);
    if j == s.len() - 1 {
        lemma_filter_one(s.drop_last(), pred, i);
    } else {
        lemma_filter_two(s.drop_last(), pred, i, j);
    }
}

/// Collect each significant token's text hash and starting line.
fn significant_hashes(tokens: &Vec<Token>, ghost_src: Ghost<Seq<char>>) -> (r: (Vec<u64>, Vec<
    usize,
>))
    requires
        token_views(tokens@) == spec_tokens(ghost_src@),
    ensures
        r.0@ == sig_hashes(ghost_src@),
        r.1@.len() == r.0@.len(),
        forall|x: int|
            0 <= x < r.1@.len() ==> (#[trigger] r.1@[x]) as int == spec_sig(ghost_src@)[x].line,
{
    let ghost views = token_views(tokens@);
    let mut hashes: Vec<u64> = Vec::new();
    let mut lines: Vec<usize> = Vec::new();
    let mut t: usize = 0;
    proof {
        reveal(Seq::filter);
        assert(views.take(0int) =~= Seq::<TokenV>::empty());
        assert(sig_tokens(views.take(0int)) =~= Seq::<TokenV>::empty());
    }
    while t < tokens.len()
        invariant
            t <= tokens@.len(),
            views == token_views(tokens@),
            hashes@ == sig_tokens(views.take(t as int)).map_values(
                |tk: TokenV| token_hash_spec(tk.text),
            ),
            lines@.len() == hashes@.len(),
            forall|x: int|
                0 <= x < lines@.len() ==> (#[trigger] lines@[x]) as int == sig_tokens(
                    views.take(t as int),
                )[x].line,
        decreases tokens@.len() - t,
    {
        let ghost prev = views.take(t as int);
        let ghost cur = views.take(t as int + 1);
        proof {
            reveal(Seq::filter);
            assert(views[t as int] == tokens@[t as int]@);
            assert(cur.drop_last() =~= prev);
            assert(cur.last() == views[t as int]);
        }
        let token = &tokens[t];
        if token.token_type.is_significant() {
            let h = token_hash(token.text.as_str());
            hashes.push(h);
            lines.push(token.line);
            proof {
                assert(sig_tokens(cur) =~= sig_tokens(prev).push(views[t as int]));
                assert(hashes@ =~= sig_tokens(cur).map_values(
                    |tk: TokenV| token_hash_spec(tk.text),
                ));
            }
        } else {
            proof {
                assert(sig_tokens(cur) =~= sig_tokens(prev));
            }
        }
        t = t + 1;
    }
    proof {
        assert(views.take(tokens@.len() as int) =~= views);
    }
    (hashes, lines)
}

/// The entry of the accumulator keyed by this hash, if any.
fn find_hash(entries: &Vec<(u64, Vec<CloneLocation>)>, h: u64) -> (r: Option<usize>)
    ensures
        match r {
            Some(m) => m < entries@.len() && entries@[m as int].0 == h,
            None => forall|m: int| 0 <= m < entries@.len() ==> (#[trigger] entries@[m]).0 != h,
        },
{
    let mut m: usize = 0;
    while m < entries.len()
        invariant
            m <= entries@.len(),
            forall|x: int| 0 <= x < m ==> (#[trigger] entries@[x]).0 != h,
        decreases entries@.len() - m,
    {
        if entries[m].0 == h {
            return Some(m);
        }
        m = m + 1;
    }
    None
}

/// Record one window occurrence in the accumulator.
fn record_window(
    entries: &mut Vec<(u64, Vec<CloneLocation>)>,
    h: u64,
    location: CloneLocation,
    ghost_recs: Ghost<Seq<RecV>>,
)
    requires
        map_ok(old(entries)@, ghost_recs@),
    ensures
        map_ok(
            final(entries)@,
            ghost_recs@.push(
                RecV {
                    hash: h as int,
                    file: location.file@,
                    start: location.start_line as int,
                    end: location.end_line as int,
                },
            ),
        ),
{
    let ghost recs = ghost_recs@;
    let ghost new_rec = RecV {
        hash: h as int,
        file: location.file@,
        start: location.start_line as int,
        end: location.end_line as int,
    };
    let ghost grown = recs.push(new_rec);
    proof {
        reveal(Seq::filter);
        assert(grown.drop_last() =~= recs);
        assert(grown.last() == new_rec);
        // Each hash's record list either gains the new record or stays.
        assert forall|hh: int| true implies #[trigger] recs_with_hash(grown, hh) == (
        if new_rec.hash == hh {
            recs_with_hash(recs, hh).push(rec_loc(new_rec))
        } else {
            recs_with_hash(recs, hh)
        }) by {
            let pred = |r: RecV| r.hash == hh;
            assert(grown.filter(pred).len() >= 0);
            if new_rec.hash == hh {
                assert(grown.filter(pred) == recs.filter(pred).push(new_rec));
                assert(recs_with_hash(grown, hh) =~= recs_with_hash(recs, hh).push(
                    rec_loc(new_rec),
                ));
            } else {
                assert(grown.filter(pred) == recs.filter(pred));
            }
        }
    }
    match find_hash(entries, h) {
        Some(m) => {
            let ghost old_entries = entries@;
            let mut entry = entries.remove(m);
            entry.1.push(location);
            proof {
                assert(loc_views(entry.1@) =~= loc_views(old_entries[m as int].1@).push(
                    loc_view(location),
                ));
            }
            entries.insert(m, entry);
            proof {
                assert(entries@ =~= old_entries.update(m as int, entry));
                assert forall|j: int| 0 <= j < grown.len() implies exists|mm: int|
                    0 <= mm < entries@.len() && (#[trigger] entries@[mm]).0 as int == (
                    #[trigger] grown[j]).hash by {
                    if j < recs.len() {
                        let m0 = choose|m0: int|
                            0 <= m0 < old_entries.len() && (#[trigger] old_entries[m0]).0 as int
                                == recs[j].hash;
                        assert((entries@[m0]).0 as int == grown[j].hash);
                    } else {
                        assert((entries@[m as int]).0 as int == grown[j].hash);
                    }
                }
            }
        },
        None => {
            let ghost old_entries = entries@;
            let mut bucket: Vec<CloneLocation> = Vec::new();
            bucket.push(location);
            proof {
                // No earlier record carries this hash, else its entry
                // would exist.
                let pred = |r: RecV| r.hash == h as int;
                if recs.filter(pred).len() > 0 {
                    lemma_filter_elem(recs, pred, 0);
                    let x = choose|x: int|
                        0 <= x < recs.len() && #[trigger] recs[x] == recs.filter(pred)[0];
                    let m0 = choose|m0: int|
                        0 <= m0 < old_entries.len() && (#[trigger] old_entries[m0]).0 as int
                            == recs[x].hash;
                    assert(false);
                }
                assert(recs.filter(pred) =~= Seq::<RecV>::empty());
                assert(loc_views(bucket@) =~= Seq::<(Seq<char>, int, int)>::empty().push(
                    loc_view(location),
                ));
                assert(recs_with_hash(grown, h as int) =~= Seq::<
                    (Seq<char>, int, int),
                >::empty().push(rec_loc(new_rec)));
            }
            entries.push((h, bucket));
            proof {
                assert forall|j: int| 0 <= j < grown.len() implies exists|mm: int|
                    0 <= mm < entries@.len() && (#[trigger] entries@[mm]).0 as int == (
                    #[trigger] grown[j]).hash by {
                    if j < recs.len() {
                        let m0 = choose|m0: int|
                            0 <= m0 < old_entries.len() && (#[trigger] old_entries[m0]).0 as int
                                == recs[j].hash;
                        assert((entries@[m0]).0 as int == grown[j].hash);
                    } else {
                        assert((entries@[entries@.len() - 1]).0 as int == grown[j].hash);
                    }
                }
            }
        },
    }
}


/// Some window record carries this hash and names this place.
pub open spec fn loc_backed(recs: Seq<RecV>, h: int, lv: (Seq<char>, int, int)) -> bool {
    exists|j: int|
        0 <= j < recs.len() && (#[trigger] recs[j]).hash == h && rec_loc(recs[j]) == lv
}

/// Some group carries this hash and reports both places.
pub open spec fn grouped_together(
    clones: Seq<Clone>,
    h: int,
    l1: (Seq<char>, int, int),
    l2: (Seq<char>, int, int),
) -> bool {
    exists|k: int|
        0 <= k < clones.len() && (#[trigger] clones[k]).hash as int == h && loc_views(
            clones[k].locations@,
        ).contains(l1) && loc_views(clones[k].locations@).contains(l2)
}

/// What a produced clone list promises about the window records it was
/// computed from: every group's location list is exactly the scan-order
/// list of window occurrences of its hash, every group has at least two
/// occurrences, and any two windows sharing a hash appear together in
/// some group.
pub open spec fn clones_ok(clones: Seq<Clone>, recs: Seq<RecV>, ws: int) -> bool {
    &&& forall|k: int| 0 <= k < clones.len() ==> (#[trigger] clones[k]).length == ws
    &&& forall|k: int| 0 <= k < clones.len() ==> (#[trigger] clones[k]).locations@.len() >= 2
    &&& forall|k: int|
        0 <= k < clones.len() ==> loc_views((#[trigger] clones[k]).locations@) == recs_with_hash(
            recs,
            clones[k].hash as int,
        )
    &&& forall|k: int| 0 <= k < clones.len() ==> (#[trigger] clones[k]).id == k + 1
    &&& forall|k1: int, k2: int|
        0 <= k1 < k2 < clones.len() ==> (#[trigger] clones[k1]).hash != (
        #[trigger] clones[k2]).hash
    &&& forall|k: int, l: int|
        #![trigger clones[k].locations@[l]]
        0 <= k < clones.len() && 0 <= l < clones[k].locations@.len() ==> loc_backed(
            recs,
            clones[k].hash as int,
            loc_view(clones[k].locations@[l]),
        )
    &&& forall|j1: int, j2: int|
        0 <= j1 < j2 < recs.len() && (#[trigger] recs[j1]).hash == (#[trigger] recs[j2]).hash
            ==> grouped_together(clones, recs[j1].hash, rec_loc(recs[j1]), rec_loc(recs[j2]))
    &&& (recs.len() == 0 ==> clones.len() == 0)
}

/// Tokenize one file and pour every window's hash and span into the
/// accumulator.
fn scan_file_into(
    entries: &mut Vec<(u64, Vec<CloneLocation>)>,
    window_size: usize,
    source: &str,
    language: Language,
    file_path: &String,
    ghost_prior: Ghost<Seq<RecV>>,
) -> (r: Result<(), MccabreError>)
    requires
        window_size >= 1,
        source@.len() < usize::MAX,
        map_ok(old(entries)@, ghost_prior@),
    ensures
        r is Ok,
        map_ok(
            final(entries)@,
            ghost_prior@ + file_recs(file_path@, source@, window_size as int),
        ),
{
    let ghost src = source@;
    let ghost path = file_path@;
    let ghost ws = window_size as int;
    let ghost prior = ghost_prior@;
    let ghost frecs = file_recs(path, src, ws);

    let tokens = match Tokenizer::new(source, language).tokenize() {
        Ok(ts) => ts,
        Err(e) => {
            proof {
                assert(false);
            }
            return Err(e);
        },
    };
    let pair = significant_hashes(&tokens, Ghost(src));
    let hashes = pair.0;
    let lines = pair.1;
    let n = hashes.len();

    if n < window_size {
        proof {
            assert(frecs.len() == 0);
            assert(prior + frecs =~= prior);
        }
        return Ok(());
    }

    let mut rh = RollingHash::new(window_size);
    rh.init(hashes.as_slice());
    proof {
        assert(hashes@.take(ws) =~= hashes@.subrange(0, ws));
    }
    let h0 = rh.get();
    let location = CloneLocation {
        file: file_path.clone(),
        start_line: lines[0],
        end_line: lines[window_size - 1],
    };
    proof {
        assert(loc_view(location) == rec_loc(window_rec(path, src, ws, 0)));
        assert(h0 as int == window_rec(path, src, ws, 0).hash);
    }
    record_window(entries, h0, location, Ghost(prior));
    proof {
        assert(prior.push(window_rec(path, src, ws, 0)) =~= prior + frecs.take(1));
    }

    let mut i = window_size;
    while i < n
        invariant
            1 <= window_size as int == ws,
            window_size <= i <= n,
            n == hashes@.len(),
            hashes@ == sig_hashes(src),
            lines@.len() == n,
            forall|x: int| 0 <= x < n ==> (#[trigger] lines@[x]) as int == spec_sig(src)[x].line,
            path == file_path@,
            frecs == file_recs(path, src, ws),
            rh.wf(),
            rh.spec_window_size() == ws,
            rh.spec_hash() == window_hash(src, i - ws, ws),
            map_ok(entries@, prior + frecs.take(i - ws + 1)),
        decreases n - i,
    {
        let ghost sofar = prior + frecs.take(i - ws + 1);
        let h = rh.roll(hashes[i - window_size], hashes[i]);
        proof {
            let w_prev = hashes@.subrange(i - ws, i as int);
            lemma_roll_window(w_prev, hashes@[i as int]);
            assert(w_prev[0] == hashes@[i - ws]);
            assert(w_prev.drop_first().push(hashes@[i as int]) =~= hashes@.subrange(
                i - ws + 1,
                i + 1,
            ));
        }
        let location = CloneLocation {
            file: file_path.clone(),
            start_line: lines[i - window_size + 1],
            end_line: lines[i],
        };
        proof {
            assert(loc_view(location) == rec_loc(window_rec(path, src, ws, i - ws + 1)));
            assert(h as int == window_rec(path, src, ws, i - ws + 1).hash);
        }
        record_window(entries, h, location, Ghost(sofar));
        proof {
            assert(sofar.push(window_rec(path, src, ws, i - ws + 1)) =~= prior + frecs.take(
                i - ws + 2,
            ));
        }
        i = i + 1;
    }
    proof {
        assert(frecs.take(n - ws + 1) =~= frecs);
    }
    Ok(())
}

/// Group `k` copies some entry among the first `bound`: same hash,
/// same places.
spec fn copies_entry(
    clones: Seq<Clone>,
    k: int,
    e0: Seq<(u64, Vec<CloneLocation>)>,
    bound: int,
) -> bool {
    exists|mm: int|
        0 <= mm < bound && (#[trigger] e0[mm]).0 == clones[k].hash && loc_views(
            clones[k].locations@,
        ) == loc_views(e0[mm].1@)
}

/// Entry `mm` is answered by some group: same hash, same places.
spec fn entry_answered(
    clones: Seq<Clone>,
    e0: Seq<(u64, Vec<CloneLocation>)>,
    mm: int,
) -> bool {
    exists|k: int|
        0 <= k < clones.len() && (#[trigger] clones[k]).hash == e0[mm].0 && loc_views(
            clones[k].locations@,
        ) == loc_views(e0[mm].1@)
}

/// A clone list that copies exactly the multi-occurrence entries of a
/// faithful accumulator satisfies the clone-list contract.
proof fn lemma_clones_from_entries(
    clones: Seq<Clone>,
    e0: Seq<(u64, Vec<CloneLocation>)>,
    recs: Seq<RecV>,
    ws: int,
)
    requires
        map_ok(e0, recs),
        forall|k: int| 0 <= k < clones.len() ==> (#[trigger] clones[k]).length == ws,
        forall|k: int| 0 <= k < clones.len() ==> (#[trigger] clones[k]).locations@.len() >= 2,
        forall|k: int| 0 <= k < clones.len() ==> (#[trigger] clones[k]).id == k + 1,
        forall|k1: int, k2: int|
            0 <= k1 < k2 < clones.len() ==> (#[trigger] clones[k1]).hash != (
            #[trigger] clones[k2]).hash,
        forall|k: int|
            0 <= k < clones.len() ==> #[trigger] copies_entry(clones, k, e0, e0.len() as int),
        forall|mm: int|
            0 <= mm < e0.len() && (#[trigger] e0[mm]).1@.len() > 1 ==> entry_answered(
                clones,
                e0,
                mm,
            ),
    ensures
        clones_ok(clones, recs, ws),
{
    // Each group's list is exactly its entry's list, which the
    // accumulator pins to the records of that hash in scan order.
    assert forall|k: int| 0 <= k < clones.len() implies loc_views(
        (#[trigger] clones[k]).locations@,
    ) == recs_with_hash(recs, clones[k].hash as int) by {
        assert(copies_entry(clones, k, e0, e0.len() as int));
        let mm = choose|mm: int|
            0 <= mm < e0.len() && (#[trigger] e0[mm]).0 == clones[k].hash && loc_views(
                clones[k].locations@,
            ) == loc_views(e0[mm].1@);
        assert(loc_views(e0[mm].1@) == recs_with_hash(recs, e0[mm].0 as int));
    }
    // Soundness of each reported location, from the entry it copies.
    assert forall|k: int, l: int|
        #![trigger clones[k].locations@[l]]
        0 <= k < clones.len() && 0 <= l < clones[k].locations@.len() implies loc_backed(
        recs,
        clones[k].hash as int,
        loc_view(clones[k].locations@[l]),
    ) by {
        assert(copies_entry(clones, k, e0, e0.len() as int));
        let mm = choose|mm: int|
            0 <= mm < e0.len() && (#[trigger] e0[mm]).0 == clones[k].hash && loc_views(
                clones[k].locations@,
            ) == loc_views(e0[mm].1@);
        let h = e0[mm].0 as int;
        let pred = |rr: RecV| rr.hash == h;
        assert(loc_views(clones[k].locations@).len() == clones[k].locations@.len());
        assert(loc_views(clones[k].locations@)[l] == recs_with_hash(recs, h)[l]);
        assert(recs_with_hash(recs, h).len() == recs.filter(pred).len());
        lemma_filter_elem(recs, pred, l);
        let j = choose|j: int| 0 <= j < recs.len() && #[trigger] recs[j] == recs.filter(pred)[l];
        assert(recs_with_hash(recs, h)[l] == rec_loc(recs.filter(pred)[l]));
        assert(loc_views(clones[k].locations@)[l] == loc_view(clones[k].locations@[l]));
        assert(recs[j].hash == h);
        assert(rec_loc(recs[j]) == loc_view(clones[k].locations@[l]));
        assert(loc_backed(recs, clones[k].hash as int, loc_view(clones[k].locations@[l])));
    }
    // Completeness: two windows with one hash meet in one group.
    assert forall|j1: int, j2: int|
        0 <= j1 < j2 < recs.len() && (#[trigger] recs[j1]).hash == (#[trigger] recs[j2]).hash
        implies grouped_together(clones, recs[j1].hash, rec_loc(recs[j1]), rec_loc(recs[j2])) by {
        let h = recs[j1].hash;
        let pred = |rr: RecV| rr.hash == h;
        let mm = choose|mm: int| 0 <= mm < e0.len() && (#[trigger] e0[mm]).0 as int == recs[
            j1].hash;
        lemma_filter_two(recs, pred, j1, j2);
        assert(loc_views(e0[mm].1@) == recs_with_hash(recs, h));
        assert(loc_views(e0[mm].1@).len() == e0[mm].1@.len());
        assert(e0[mm].1@.len() > 1);
        assert(entry_answered(clones, e0, mm));
        let k = choose|k: int|
            0 <= k < clones.len() && (#[trigger] clones[k]).hash == e0[mm].0 && loc_views(
                clones[k].locations@,
            ) == loc_views(e0[mm].1@);
        recs.lemma_filter_contains(pred, j1);
        recs.lemma_filter_contains(pred, j2);
        let l1 = choose|l: int|
            0 <= l < recs.filter(pred).len() && recs.filter(pred)[l] == recs[j1];
        let l2 = choose|l: int|
            0 <= l < recs.filter(pred).len() && recs.filter(pred)[l] == recs[j2];
        assert(recs_with_hash(recs, h)[l1] == rec_loc(recs[j1]));
        assert(recs_with_hash(recs, h)[l2] == rec_loc(recs[j2]));
        assert(loc_views(clones[k].locations@).contains(rec_loc(recs[j1])));
        assert(loc_views(clones[k].locations@).contains(rec_loc(recs[j2])));
        assert(grouped_together(clones, recs[j1].hash, rec_loc(recs[j1]), rec_loc(recs[j2])));
    }
    // An empty record list leaves nothing to report.
    if recs.len() == 0 && clones.len() > 0 {
        assert(copies_entry(clones, 0, e0, e0.len() as int));
        let mm = choose|mm: int|
            0 <= mm < e0.len() && (#[trigger] e0[mm]).0 == clones[0].hash && loc_views(
                clones[0].locations@,
            ) == loc_views(e0[mm].1@);
        assert(loc_views(e0[mm].1@) == recs_with_hash(recs, e0[mm].0 as int));
        assert(recs.filter(|rr: RecV| rr.hash == e0[mm].0 as int) =~= Seq::<RecV>::empty());
        assert(loc_views(e0[mm].1@).len() == 0);
        assert(e0[mm].1@.len() == 0);
        assert(clones[0].locations@.len() >= 2);
        assert(loc_views(clones[0].locations@).len() >= 2);
        assert(false);
    }
}

/// Turn every accumulator entry with at least two occurrences into a
/// clone group, numbering the groups as they are met.
#[verifier::rlimit(80)]
fn build_file_clones(
    entries: Vec<(u64, Vec<CloneLocation>)>,
    window_size: usize,
    ghost_recs: Ghost<Seq<RecV>>,
) -> (r: Vec<Clone>)
    requires
        map_ok(entries@, ghost_recs@),
    ensures
        clones_ok(r@, ghost_recs@, window_size as int),
{
    let ghost recs = ghost_recs@;
    let ghost e0 = entries@;
    let mut rest = entries;
    let total = rest.len();
    let mut clones: Vec<Clone> = Vec::new();
    let mut m: usize = 0;
    while rest.len() > 0
        invariant
            e0.len() == total,
            m + rest@.len() == e0.len(),
            clones@.len() <= m,
            forall|m1: int, m2: int|
                0 <= m1 < m2 < e0.len() ==> (#[trigger] e0[m1]).0 != (#[trigger] e0[m2]).0,
            forall|x: int| 0 <= x < rest@.len() ==> #[trigger] rest@[x] == e0[m + x],
            forall|k: int| 0 <= k < clones@.len() ==> (#[trigger] clones@[k]).length
                == window_size,
            forall|k: int| 0 <= k < clones@.len() ==> (#[trigger] clones@[k]).locations@.len()
                >= 2,
            forall|k: int| 0 <= k < clones@.len() ==> (#[trigger] clones@[k]).id == k + 1,
            forall|k1: int, k2: int|
                0 <= k1 < k2 < clones@.len() ==> (#[trigger] clones@[k1]).hash != (
                #[trigger] clones@[k2]).hash,
            forall|k: int|
                0 <= k < clones@.len() ==> #[trigger] copies_entry(clones@, k, e0, m as int),
            forall|mm: int|
                0 <= mm < m && (#[trigger] e0[mm]).1@.len() > 1 ==> entry_answered(
                    clones@,
                    e0,
                    mm,
                ),
        decreases rest@.len(),
    {
        let ghost before = rest@;
        let entry = rest.remove(0);
        proof {
            assert(entry == e0[m as int]);
            assert(forall|x: int| 0 <= x < rest@.len() ==> #[trigger] rest@[x] == before[x + 1]);
        }
        if entry.1.len() > 1 {
            let id = clones.len() + 1;
            let clone_group = Clone {
                id,
                length: window_size,
                locations: entry.1,
                hash: entry.0,
            };
            let ghost cg = clone_group;
            let ghost old_clones = clones@;
            clones.push(clone_group);
            proof {
                assert(clones@[clones@.len() - 1] == cg);
                assert(cg.hash == e0[m as int].0);
                assert(loc_views(cg.locations@) == loc_views(e0[m as int].1@));
                assert(forall|k: int|
                    0 <= k < old_clones.len() ==> #[trigger] clones@[k] == old_clones[k]);
                // The new hash copies a fresh entry key, distinct from
                // every key an earlier group copied.
                assert forall|k1: int, k2: int|
                    0 <= k1 < k2 < clones@.len() implies (#[trigger] clones@[k1]).hash != (
                #[trigger] clones@[k2]).hash by {
                    if k2 == clones@.len() - 1 {
                        assert(copies_entry(old_clones, k1, e0, m as int));
                        let mm = choose|mm: int|
                            0 <= mm < m && (#[trigger] e0[mm]).0 == old_clones[k1].hash
                                && loc_views(old_clones[k1].locations@) == loc_views(e0[mm].1@);
                        assert(e0[mm].0 != e0[m as int].0);
                    }
                }
                // Earlier groups still answer for their entries.
                assert forall|mm: int|
                    0 <= mm < m as int + 1 && (#[trigger] e0[mm]).1@.len() > 1
                    implies entry_answered(clones@, e0, mm) by {
                    if mm < m as int {
                        assert(entry_answered(old_clones, e0, mm));
                        let k0 = choose|k0: int|
                            0 <= k0 < old_clones.len() && (#[trigger] old_clones[k0]).hash
                                == e0[mm].0 && loc_views(old_clones[k0].locations@) == loc_views(
                                e0[mm].1@,
                            );
                        assert(clones@[k0].hash == e0[mm].0 && loc_views(clones@[k0].locations@)
                            == loc_views(e0[mm].1@));
                    } else {
                        assert(clones@[clones@.len() - 1].hash == e0[mm].0);
                    }
                }
                assert forall|k: int| 0 <= k < clones@.len() implies #[trigger] copies_entry(
                    clones@,
                    k,
                    e0,
                    m as int + 1,
                ) by {
                    if k < old_clones.len() {
                        assert(copies_entry(old_clones, k, e0, m as int));
                        let mm0 = choose|mm0: int|
                            0 <= mm0 < m && (#[trigger] e0[mm0]).0 == old_clones[k].hash
                                && loc_views(old_clones[k].locations@) == loc_views(e0[mm0].1@);
                        assert(e0[mm0].0 == clones@[k].hash && loc_views(clones@[k].locations@)
                            == loc_views(e0[mm0].1@));
                    } else {
                        assert(e0[m as int].0 == clones@[k].hash && loc_views(
                            clones@[k].locations@,
                        ) == loc_views(e0[m as int].1@));
                    }
                }
            }
        } else {
            proof {
                assert forall|k: int| 0 <= k < clones@.len() implies #[trigger] copies_entry(
                    clones@,
                    k,
                    e0,
                    m as int + 1,
                ) by {
                    assert(copies_entry(clones@, k, e0, m as int));
                    let mm0 = choose|mm0: int|
                        0 <= mm0 < m && (#[trigger] e0[mm0]).0 == clones@[k].hash && loc_views(
                            clones@[k].locations@,
                        ) == loc_views(e0[mm0].1@);
                    assert(0 <= mm0 < m as int + 1 && e0[mm0].0 == clones@[k].hash && loc_views(
                        clones@[k].locations@,
                    ) == loc_views(e0[mm0].1@));
                }
            }
        }
        m = m + 1;
    }

    proof {
        assert(m as int == e0.len());
        lemma_clones_from_entries(clones@, e0, recs, window_size as int);
    }
    clones
}

/// Windows made of the same token texts hash alike: the rolling hash
/// depends on the texts of the window's tokens alone.
pub proof fn lemma_equal_windows_equal_hashes(
    src1: Seq<char>,
    i1: int,
    src2: Seq<char>,
    i2: int,
    ws: int,
)
    requires
        valid_window(src1, i1, ws),
        valid_window(src2, i2, ws),
        forall|d: int|
            0 <= d < ws ==> (#[trigger] spec_sig(src1)[i1 + d]).text == spec_sig(src2)[i2
                + d].text,
    ensures
        window_hash(src1, i1, ws) == window_hash(src2, i2, ws),
{
    assert(sig_hashes(src1).subrange(i1, i1 + ws) =~= sig_hashes(src2).subrange(i2, i2 + ws)) by {
        assert forall|d: int| 0 <= d < ws implies #[trigger] sig_hashes(src1).subrange(
            i1,
            i1 + ws,
        )[d] == sig_hashes(src2).subrange(i2, i2 + ws)[d] by {
            assert(sig_hashes(src1)[i1 + d] == token_hash_spec(spec_sig(src1)[i1 + d].text));
            assert(sig_hashes(src2)[i2 + d] == token_hash_spec(spec_sig(src2)[i2 + d].text));
        }
    }
}

/// Two windows of identical token texts inside one file always share a
/// reported group: their hashes agree, so the detector's completeness
/// puts both places into one clone with at least two occurrences.
pub proof fn lemma_identical_windows_share_a_group(
    clones: Seq<Clone>,
    path: Seq<char>,
    src: Seq<char>,
    ws: int,
    i1: int,
    i2: int,
)
    requires
        clones_ok(clones, file_recs(path, src, ws), ws),
        valid_window(src, i1, ws),
        valid_window(src, i2, ws),
        i1 != i2,
        forall|d: int|
            0 <= d < ws ==> (#[trigger] spec_sig(src)[i1 + d]).text == spec_sig(src)[i2 + d].text,
    ensures
        exists|k: int|
            0 <= k < clones.len() && (#[trigger] clones[k]).locations@.len() >= 2
                && clones[k].hash as int == window_hash(src, i1, ws),
{
    let recs = file_recs(path, src, ws);
    lemma_equal_windows_equal_hashes(src, i1, src, i2, ws);
    assert(recs[i1] == window_rec(path, src, ws, i1));
    assert(recs[i2] == window_rec(path, src, ws, i2));
    assert(recs[i1].hash == recs[i2].hash);
    let ja = if i1 < i2 {
        i1
    } else {
        i2
    };
    let jb = if i1 < i2 {
        i2
    } else {
        i1
    };
    assert(grouped_together(clones, recs[ja].hash, rec_loc(recs[ja]), rec_loc(recs[jb])));
    let k = choose|k: int|
        0 <= k < clones.len() && (#[trigger] clones[k]).hash as int == recs[ja].hash && loc_views(
            clones[k].locations@,
        ).contains(rec_loc(recs[ja])) && loc_views(clones[k].locations@).contains(
            rec_loc(recs[jb]),
        );
    assert(clones[k].locations@.len() >= 2);
    assert(clones[k].hash as int == window_hash(src, i1, ws));
}

impl CloneDetector {
    /// The window size this detector slides over the token stream.
    pub closed spec fn spec_window_size(&self) -> int {
        self.window_size as int
    }

    pub fn new(min_tokens: usize) -> (r: Self)
        ensures
            r.spec_window_size() == min_tokens,
    {
        Self { _min_tokens: min_tokens, window_size: min_tokens }
    }

    /// Find every repeated window of significant tokens in one file.
    ///
    /// A file with fewer significant tokens than the window is reported
    /// clone-free. Every reported group names at least two places whose
    /// windows share a hash, and any two windows of the file that share
    /// a hash are reported together in one group.
    pub fn detect_in_file(&self, source: &str, language: Language, file_path: String) -> (r:
        Result<Vec<Clone>, MccabreError>)
        requires
            self.spec_window_size() >= 1,
            source@.len() < usize::MAX,
        ensures
            r matches Ok(cs) && clones_ok(
                cs@,
                file_recs(file_path@, source@, self.spec_window_size()),
                self.spec_window_size(),
            ),
            r matches Ok(cs) && (spec_sig(source@).len() < self.spec_window_size() ==> cs@.len()
                == 0),
    {
        let mut entries: Vec<(u64, Vec<CloneLocation>)> = Vec::new();
        proof {
            assert(map_ok(entries@, Seq::<RecV>::empty()));
        }
        match scan_file_into(
            &mut entries,
            self.window_size,
            source,
            language,
            &file_path,
            Ghost(Seq::empty()),
        ) {
            Ok(_) => {},
            Err(e) => {
                proof {
                    assert(false);
                }
                return Err(e);
            },
        }
        let ghost frecs = file_recs(file_path@, source@, self.spec_window_size());
        proof {
            assert(Seq::<RecV>::empty() + frecs =~= frecs);
        }
        let clones = build_file_clones(entries, self.window_size, Ghost(frecs));
        proof {
            if spec_sig(source@).len() < self.spec_window_size() {
                assert(frecs.len() == 0);
            }
        }
        Ok(clones)
    }
}


// --- Ordering of locations ---------------------------------------------

/// Lexicographic order on character sequences, the order byte-wise path
/// comparison induces.
pub open spec fn lex_le(a: Seq<char>, b: Seq<char>) -> bool
    decreases a.len(),
{
    if a.len() == 0 {
        true
    } else if b.len() == 0 {
        false
    } else if a[0] != b[0] {
        a[0] < b[0]
    } else {
        lex_le(a.drop_first(), b.drop_first())
    }
}

/// Order on locations: by file, then start line, then end line.
pub open spec fn loc_le(a: (Seq<char>, int, int), b: (Seq<char>, int, int)) -> bool {
    if a.0 == b.0 {
        a.1 < b.1 || (a.1 == b.1 && a.2 <= b.2)
    } else {
        lex_le(a.0, b.0)
    }
}

/// A location list in ascending order.
pub open spec fn locs_sorted(ls: Seq<CloneLocation>) -> bool {
    forall|x: int, y: int|
        0 <= x < y < ls.len() ==> loc_le(
            loc_view(#[trigger] ls[x]),
            loc_view(#[trigger] ls[y]),
        )
}

/// A location list without repeated places.
pub open spec fn locs_distinct(ls: Seq<CloneLocation>) -> bool {
    forall|x: int, y: int|
        0 <= x < y < ls.len() ==> loc_view(#[trigger] ls[x]) != loc_view(#[trigger] ls[y])
}

/// Any two sequences compare one way or the other.
proof fn lemma_lex_le_total(a: Seq<char>, b: Seq<char>)
    ensures
        lex_le(a, b) || lex_le(b, a),
    decreases a.len(),
{
    if a.len() > 0 && b.len() > 0 && a[0] == b[0] {
        lemma_lex_le_total(a.drop_first(), b.drop_first());
    }
}

/// Sequences that compare below each other are equal.
proof fn lemma_lex_le_antisym(a: Seq<char>, b: Seq<char>)
    requires
        lex_le(a, b),
        lex_le(b, a),
    ensures
        a == b,
    decreases a.len(),
{
    if a.len() == 0 {
        assert(b.len() == 0);
        assert(a =~= b);
    } else {
        assert(b.len() > 0);
        assert(a[0] == b[0]);
        lemma_lex_le_antisym(a.drop_first(), b.drop_first());
        assert(a.drop_first() == b.drop_first());
        assert forall|x: int| 0 <= x < a.len() implies a[x] == b[x] by {
            if x > 0 {
                assert(a[x] == a.drop_first()[x - 1]);
                assert(b[x] == b.drop_first()[x - 1]);
            }
        }
        assert(a.len() == b.len());
        assert(a =~= b);
    }
}

/// Any two locations compare one way or the other.
proof fn lemma_loc_le_total(a: (Seq<char>, int, int), b: (Seq<char>, int, int))
    ensures
        loc_le(a, b) || loc_le(b, a),
{
    if a.0 != b.0 {
        lemma_lex_le_total(a.0, b.0);
    }
}

/// Locations that compare below each other name the same place.
proof fn lemma_loc_le_antisym(a: (Seq<char>, int, int), b: (Seq<char>, int, int))
    requires
        loc_le(a, b),
        loc_le(b, a),
    ensures
        a == b,
{
    if a.0 == b.0 {
    } else {
        lemma_lex_le_antisym(a.0, b.0);
    }
}

/// Compare two string slices lexicographically.
fn str_le(a: &str, b: &str) -> (r: bool)
    ensures
        r == lex_le(a@, b@),
{
    let la = a.unicode_len();
    let lb = b.unicode_len();
    let n = if la < lb {
        la
    } else {
        lb
    };
    let mut i: usize = 0;
    proof {
        assert(a@.skip(0int) =~= a@);
        assert(b@.skip(0int) =~= b@);
    }
    while i < n
        invariant
            i <= n,
            n == vstd::math::min(a@.len() as int, b@.len() as int),
            la == a@.len(),
            lb == b@.len(),
            lex_le(a@, b@) == lex_le(a@.skip(i as int), b@.skip(i as int)),
            forall|x: int| 0 <= x < i ==> a@[x] == b@[x],
        decreases n - i,
    {
        let ca = a.get_char(i);
        let cb = b.get_char(i);
        proof {
            let ta = a@.skip(i as int);
            let tb = b@.skip(i as int);
            assert(ta[0] == a@[i as int] && tb[0] == b@[i as int]);
            assert(ta.drop_first() =~= a@.skip(i as int + 1));
            assert(tb.drop_first() =~= b@.skip(i as int + 1));
        }
        if ca != cb {
            return (ca as u32) < (cb as u32);
        }
        i = i + 1;
    }
    proof {
        let ta = a@.skip(n as int);
        let tb = b@.skip(n as int);
        if la <= lb {
            assert(ta.len() == 0);
        } else {
            assert(tb.len() == 0 && ta.len() > 0);
        }
    }
    la <= lb
}

/// Compare two locations: file, then start line, then end line.
fn loc_le_exec(a: &CloneLocation, b: &CloneLocation) -> (r: bool)
    ensures
        r == loc_le(loc_view(*a), loc_view(*b)),
{
    if str_eq(a.file.as_str(), b.file.as_str()) {
        a.start_line < b.start_line || (a.start_line == b.start_line && a.end_line <= b.end_line)
    } else {
        str_le(a.file.as_str(), b.file.as_str())
    }
}

/// Whether two locations name the same place.
fn loc_eq_exec(a: &CloneLocation, b: &CloneLocation) -> (r: bool)
    ensures
        r == (loc_view(*a) == loc_view(*b)),
{
    let same = str_eq(a.file.as_str(), b.file.as_str()) && a.start_line == b.start_line
        && a.end_line == b.end_line;
    proof {
        if same {
            assert(loc_view(*a) == loc_view(*b));
        }
    }
    same
}

/// Order a location list by file, then start line, then end line.
fn sort_locations(locs: Vec<CloneLocation>) -> (r: Vec<CloneLocation>)
    ensures
        loc_views(r@).to_multiset() == loc_views(locs@).to_multiset(),
        r@.len() == locs@.len(),
        locs_sorted(r@),
{
    let mut rest = locs;
    let mut sorted: Vec<CloneLocation> = Vec::new();
    proof {
        assert(loc_views(sorted@) =~= Seq::<(Seq<char>, int, int)>::empty());
        vstd::seq_lib::to_multiset_len(loc_views(sorted@));
        vstd::multiset::lemma_multiset_empty_len(loc_views(sorted@).to_multiset());
        assert(loc_views(sorted@).to_multiset().add(loc_views(rest@).to_multiset())
            =~= loc_views(locs@).to_multiset());
    }
    while rest.len() > 0
        invariant
            loc_views(sorted@).to_multiset().add(loc_views(rest@).to_multiset()) == loc_views(
                locs@,
            ).to_multiset(),
            sorted@.len() + rest@.len() == locs@.len(),
            locs_sorted(sorted@),
            forall|x: int, y: int|
                0 <= x < sorted@.len() && 0 <= y < rest@.len() ==> loc_le(
                    loc_view(#[trigger] sorted@[x]),
                    loc_view(#[trigger] rest@[y]),
                ),
        decreases rest@.len(),
    {
        let mut best_idx: usize = 0;
        let mut j: usize = 1;
        while j < rest.len()
            invariant
                0 < rest@.len(),
                best_idx < rest@.len(),
                j <= rest@.len(),
                forall|x: int|
                    0 <= x < j ==> loc_le(
                        loc_view(rest@[best_idx as int]),
                        loc_view(#[trigger] rest@[x]),
                    ),
            decreases rest@.len() - j,
        {
            let strictly_less = loc_le_exec(&rest[j], &rest[best_idx]) && !loc_le_exec(
                &rest[best_idx],
                &rest[j],
            );
            proof {
                lemma_loc_le_total(loc_view(rest@[j as int]), loc_view(rest@[best_idx as int]));
            }
            if strictly_less {
                let ghost prev_best = best_idx as int;
                best_idx = j;
                proof {
                    assert forall|x: int| 0 <= x < j as int + 1 implies loc_le(
                        loc_view(rest@[best_idx as int]),
                        loc_view(#[trigger] rest@[x]),
                    ) by {
                        if x < j as int {
                            lemma_loc_le_trans(
                                loc_view(rest@[j as int]),
                                loc_view(rest@[prev_best]),
                                loc_view(rest@[x]),
                            );
                        }
                    }
                }
            }
            j = j + 1;
        }
        let ghost old_rest = rest@;
        let ghost old_sorted = sorted@;
        let picked = rest.remove(best_idx);
        proof {
            assert(rest@ == old_rest.remove(best_idx as int));
            assert(loc_views(rest@) =~= loc_views(old_rest).remove(best_idx as int));
            vstd::seq_lib::to_multiset_remove(loc_views(old_rest), best_idx as int);
            assert(loc_views(old_rest).contains(loc_view(picked)));
            vstd::seq_lib::to_multiset_contains(loc_views(old_rest), loc_view(picked));
            assert(forall|b: int|
                0 <= b < rest@.len() ==> #[trigger] rest@[b] == old_rest[if b < best_idx as int {
                    b
                } else {
                    b + 1
                }]);
        }
        sorted.push(picked);
        proof {
            assert(sorted@ == old_sorted.push(picked));
            assert(loc_views(sorted@) =~= loc_views(old_sorted).push(loc_view(picked)));
            vstd::seq_lib::to_multiset_build(loc_views(old_sorted), loc_view(picked));
            assert(loc_views(sorted@).to_multiset().add(loc_views(rest@).to_multiset())
                =~= loc_views(locs@).to_multiset());
            assert(forall|a: int| 0 <= a < old_sorted.len() ==> sorted@[a] == old_sorted[a]);
            assert(sorted@[sorted@.len() - 1] == picked);
        }
    }
    proof {
        vstd::seq_lib::to_multiset_len(loc_views(rest@));
        vstd::multiset::lemma_multiset_empty_len(loc_views(rest@).to_multiset());
        assert(loc_views(rest@).to_multiset() =~= Multiset::<(Seq<char>, int, int)>::empty());
        assert(loc_views(sorted@).to_multiset() =~= loc_views(locs@).to_multiset());
    }
    sorted
}

/// The location order chains.
proof fn lemma_lex_le_trans(a: Seq<char>, b: Seq<char>, c: Seq<char>)
    requires
        lex_le(a, b),
        lex_le(b, c),
    ensures
        lex_le(a, c),
    decreases a.len(),
{
    if a.len() > 0 && b.len() > 0 && c.len() > 0 {
        if a[0] == b[0] && b[0] == c[0] {
            lemma_lex_le_trans(a.drop_first(), b.drop_first(), c.drop_first());
        }
    }
}

/// The location order chains.
proof fn lemma_loc_le_trans(
    a: (Seq<char>, int, int),
    b: (Seq<char>, int, int),
    c: (Seq<char>, int, int),
)
    requires
        loc_le(a, b),
        loc_le(b, c),
    ensures
        loc_le(a, c),
{
    if a.0 == b.0 && b.0 == c.0 {
    } else if a.0 == b.0 {
    } else if b.0 == c.0 {
    } else {
        lemma_lex_le_trans(a.0, b.0, c.0);
        if a.0 == c.0 {
            lemma_lex_le_antisym(a.0, b.0);
        }
    }
}

/// A copy of a location, equal to the original.
fn clone_location(l: &CloneLocation) -> (r: CloneLocation)
    ensures
        r == *l,
{
    CloneLocation { file: l.file.clone(), start_line: l.start_line, end_line: l.end_line }
}

/// Drop exact repeats from an ordered location list: the places kept
/// are exactly the distinct places given.
fn dedup_locations(locs: Vec<CloneLocation>) -> (r: Vec<CloneLocation>)
    requires
        locs_sorted(locs@),
    ensures
        locs_sorted(r@),
        locs_distinct(r@),
        forall|lv: (Seq<char>, int, int)|
            loc_views(r@).contains(lv) <==> loc_views(locs@).contains(lv),
        r@.len() <= locs@.len(),
{
    let mut kept: Vec<CloneLocation> = Vec::new();
    let mut j: usize = 0;
    while j < locs.len()
        invariant
            j <= locs@.len(),
            locs_sorted(locs@),
            kept@.len() <= j,
            locs_sorted(kept@),
            forall|x: int, y: int|
                0 <= x < kept@.len() && j <= y < locs@.len() ==> loc_le(
                    loc_view(#[trigger] kept@[x]),
                    loc_view(#[trigger] locs@[y]),
                ),
            kept@.len() > 0 && j < locs@.len() ==> loc_le(
                loc_view(kept@[kept@.len() - 1]),
                loc_view(locs@[j as int]),
            ),
            forall|x: int, y: int|
                0 <= x < y < kept@.len() ==> loc_view(#[trigger] kept@[x]) != loc_view(
                    #[trigger] kept@[y],
                ) || !loc_le(loc_view(kept@[y]), loc_view(kept@[x])),
            locs_distinct(kept@),
            forall|lv: (Seq<char>, int, int)|
                #![trigger loc_views(kept@).contains(lv)]
                loc_views(kept@).contains(lv) <==> loc_views(locs@.take(j as int)).contains(lv),
        decreases locs@.len() - j,
    {
        let keep = if kept.len() == 0 {
            true
        } else {
            !loc_eq_exec(&kept[kept.len() - 1], &locs[j])
        };
        let ghost old_kept = kept@;
        proof {
            assert(loc_views(locs@.take(j as int + 1)) =~= loc_views(locs@.take(j as int)).push(
                loc_view(locs@[j as int]),
            ));
        }
        if keep {
            let ghost lv_new = loc_view(locs@[j as int]);
            kept.push(clone_location(&locs[j]));
            proof {
                assert(kept@[kept@.len() - 1] == locs@[j as int]);
                assert(loc_view(kept@[kept@.len() - 1]) == lv_new);
                assert(loc_views(kept@) =~= loc_views(old_kept).push(lv_new));
                // The newcomer differs from every kept place: it is at
                // least the last kept place, and not equal to it.
                assert forall|x: int, y: int|
                    0 <= x < y < kept@.len() implies loc_view(#[trigger] kept@[x]) != loc_view(
                    #[trigger] kept@[y],
                ) by {
                    if y == kept@.len() - 1 && old_kept.len() > 0 {
                        if loc_view(kept@[x]) == lv_new {
                            let last = loc_view(old_kept[old_kept.len() - 1]);
                            assert(loc_le(loc_view(old_kept[x]), last));
                            assert(loc_le(last, lv_new));
                            lemma_loc_le_antisym(last, lv_new);
                        }
                    }
                }
            }
        } else {
            proof {
                assert(loc_view(kept@[kept@.len() - 1]) == loc_view(locs@[j as int]));
                assert(loc_views(kept@)[kept@.len() - 1] == loc_view(locs@[j as int]));
                assert(loc_views(kept@).contains(loc_view(locs@[j as int])));
            }
        }
        proof {
            let old_views = loc_views(old_kept);
            let new_views = loc_views(kept@);
            let prior = loc_views(locs@.take(j as int));
            let grown = loc_views(locs@.take(j as int + 1));
            assert forall|lv: (Seq<char>, int, int)|
                #![trigger loc_views(kept@).contains(lv)]
                loc_views(kept@).contains(lv) <==> grown.contains(lv) by {
                if new_views.contains(lv) {
                    let x = choose|x: int| 0 <= x < new_views.len() && new_views[x] == lv;
                    if x < old_views.len() {
                        assert(old_views[x] == lv);
                        assert(old_views.contains(lv));
                        let y = choose|y: int| 0 <= y < prior.len() && prior[y] == lv;
                        assert(grown[y] == lv);
                    } else {
                        assert(lv == loc_view(locs@[j as int]));
                        assert(grown[grown.len() - 1] == lv);
                    }
                }
                if grown.contains(lv) {
                    let y = choose|y: int| 0 <= y < grown.len() && grown[y] == lv;
                    if y < prior.len() {
                        assert(prior[y] == lv);
                        assert(prior.contains(lv));
                        assert(old_views.contains(lv));
                        let x = choose|x: int| 0 <= x < old_views.len() && old_views[x] == lv;
                        assert(new_views[x] == lv);
                        assert(new_views.contains(lv));
                    } else {
                        assert(lv == loc_view(locs@[j as int]));
                        assert(new_views[new_views.len() - 1] == lv);
                        assert(new_views.contains(lv));
                    }
                }
            }
        }
        proof {
            assert forall|x: int, y: int|
                0 <= x < kept@.len() && j as int + 1 <= y < locs@.len() implies loc_le(
                loc_view(#[trigger] kept@[x]),
                loc_view(#[trigger] locs@[y]),
            ) by {
                if x < old_kept.len() {
                } else {
                    assert(kept@[x] == locs@[j as int]);
                }
            }
        }
        j = j + 1;
    }
    proof {
        assert(locs@.take(locs@.len() as int) =~= locs@);
    }
    kept
}


// --- Cross-file detection ----------------------------------------------

/// The window records of the first `upto` files, file by file.
pub open spec fn all_recs(files: Seq<(String, String, Language)>, ws: int, upto: int) -> Seq<RecV>
    decreases upto when upto >= 0
{
    if upto <= 0 {
        Seq::empty()
    } else {
        all_recs(files, ws, upto - 1) + file_recs(files[upto - 1].0@, files[upto - 1].1@, ws)
    }
}

/// Every window of every file has its record in the combined list.
pub proof fn lemma_all_recs_index(
    files: Seq<(String, String, Language)>,
    ws: int,
    upto: int,
    f: int,
    j: int,
)
    requires
        0 <= f < upto <= files.len(),
        0 <= j < window_count(files[f].1@, ws),
    ensures
        exists|x: int|
            0 <= x < all_recs(files, ws, upto).len() && #[trigger] all_recs(files, ws, upto)[x]
                == window_rec(files[f].0@, files[f].1@, ws, j),
    decreases upto,
{
    if f == upto - 1 {
        let prefix = all_recs(files, ws, upto - 1);
        let frecs = file_recs(files[f].0@, files[f].1@, ws);
        let x = prefix.len() + j;
        assert(all_recs(files, ws, upto)[x as int] == frecs[j]);
        assert(frecs[j] == window_rec(files[f].0@, files[f].1@, ws, j));
    } else {
        lemma_all_recs_index(files, ws, upto - 1, f, j);
        let x = choose|x: int|
            0 <= x < all_recs(files, ws, upto - 1).len() && #[trigger] all_recs(
                files,
                ws,
                upto - 1,
            )[x] == window_rec(files[f].0@, files[f].1@, ws, j);
        assert(all_recs(files, ws, upto)[x] == window_rec(files[f].0@, files[f].1@, ws, j));
    }
}

/// The bucket holds two genuinely different places.
pub open spec fn two_distinct(ls: Seq<CloneLocation>) -> bool {
    exists|x: int, y: int|
        0 <= x < y < ls.len() && loc_view(#[trigger] ls[x]) != loc_view(#[trigger] ls[y])
}

/// Group `k` derives from entry `mm`: same hash, and its ordered,
/// deduplicated locations name exactly the entry's distinct places.
spec fn derived_from(
    clones: Seq<Clone>,
    k: int,
    e0: Seq<(u64, Vec<CloneLocation>)>,
    mm: int,
) -> bool {
    &&& clones[k].hash == e0[mm].0
    &&& locs_sorted(clones[k].locations@)
    &&& locs_distinct(clones[k].locations@)
    &&& forall|lv: (Seq<char>, int, int)|
        #![trigger loc_views(clones[k].locations@).contains(lv)]
        loc_views(clones[k].locations@).contains(lv) <==> loc_views(e0[mm].1@).contains(lv)
}

/// Group `k` derives from some entry among the first `bound`.
spec fn cross_copies(
    clones: Seq<Clone>,
    k: int,
    e0: Seq<(u64, Vec<CloneLocation>)>,
    bound: int,
) -> bool {
    exists|mm: int| 0 <= mm < bound && #[trigger] derived_from(clones, k, e0, mm)
}

/// Entry `mm` is answered by some group.
spec fn cross_answered(
    clones: Seq<Clone>,
    e0: Seq<(u64, Vec<CloneLocation>)>,
    mm: int,
) -> bool {
    exists|k: int| 0 <= k < clones.len() && #[trigger] derived_from(clones, k, e0, mm)
}

/// What the cross-file clone list promises about the combined window
/// records.
pub open spec fn cross_clones_ok(clones: Seq<Clone>, recs: Seq<RecV>, ws: int) -> bool {
    &&& forall|k: int| 0 <= k < clones.len() ==> (#[trigger] clones[k]).length == ws
    &&& forall|k: int| 0 <= k < clones.len() ==> (#[trigger] clones[k]).locations@.len() >= 2
    &&& forall|k: int| 0 <= k < clones.len() ==> 1 <= (#[trigger] clones[k]).id <= clones.len()
    &&& forall|k1: int, k2: int|
        0 <= k1 < k2 < clones.len() ==> (#[trigger] clones[k1]).id != (#[trigger] clones[k2]).id
    &&& forall|k1: int, k2: int|
        0 <= k1 < k2 < clones.len() ==> (#[trigger] clones[k1]).hash != (
        #[trigger] clones[k2]).hash
    &&& forall|k: int| 0 <= k < clones.len() ==> locs_sorted((#[trigger] clones[k]).locations@)
    &&& forall|k: int| 0 <= k < clones.len() ==> locs_distinct((#[trigger] clones[k]).locations@)
    &&& forall|k: int, l: int|
        #![trigger clones[k].locations@[l]]
        0 <= k < clones.len() && 0 <= l < clones[k].locations@.len() ==> loc_backed(
            recs,
            clones[k].hash as int,
            loc_view(clones[k].locations@[l]),
        )
    &&& forall|j1: int, j2: int|
        0 <= j1 < j2 < recs.len() && (#[trigger] recs[j1]).hash == (#[trigger] recs[j2]).hash
            && rec_loc(recs[j1]) != rec_loc(recs[j2]) ==> grouped_together(
            clones,
            recs[j1].hash,
            rec_loc(recs[j1]),
            rec_loc(recs[j2]),
        )
}

/// A clone list whose groups derive from the multi-place entries of a
/// faithful accumulator meets the cross-file contract, provided its ids
/// number the groups in order.
proof fn lemma_cross_clones_from_entries(
    clones: Seq<Clone>,
    e0: Seq<(u64, Vec<CloneLocation>)>,
    recs: Seq<RecV>,
    ws: int,
)
    requires
        map_ok(e0, recs),
        forall|k: int| 0 <= k < clones.len() ==> (#[trigger] clones[k]).length == ws,
        forall|k: int| 0 <= k < clones.len() ==> (#[trigger] clones[k]).locations@.len() >= 2,
        forall|k: int| 0 <= k < clones.len() ==> (#[trigger] clones[k]).id == k + 1,
        forall|k1: int, k2: int|
            0 <= k1 < k2 < clones.len() ==> (#[trigger] clones[k1]).hash != (
            #[trigger] clones[k2]).hash,
        forall|k: int|
            0 <= k < clones.len() ==> #[trigger] cross_copies(clones, k, e0, e0.len() as int),
        forall|mm: int|
            0 <= mm < e0.len() && two_distinct((#[trigger] e0[mm]).1@) ==> cross_answered(
                clones,
                e0,
                mm,
            ),
    ensures
        cross_clones_ok(clones, recs, ws),
{
    assert forall|k: int| 0 <= k < clones.len() implies locs_sorted(
        (#[trigger] clones[k]).locations@,
    ) && locs_distinct(clones[k].locations@) by {
        assert(cross_copies(clones, k, e0, e0.len() as int));
        let mm = choose|mm: int| 0 <= mm < e0.len() && #[trigger] derived_from(clones, k, e0, mm);
    }
    // Soundness: every reported place is a recorded window of the hash.
    assert forall|k: int, l: int|
        #![trigger clones[k].locations@[l]]
        0 <= k < clones.len() && 0 <= l < clones[k].locations@.len() implies loc_backed(
        recs,
        clones[k].hash as int,
        loc_view(clones[k].locations@[l]),
    ) by {
        assert(cross_copies(clones, k, e0, e0.len() as int));
        let mm = choose|mm: int| 0 <= mm < e0.len() && #[trigger] derived_from(clones, k, e0, mm);
        let lv = loc_view(clones[k].locations@[l]);
        assert(loc_views(clones[k].locations@)[l] == lv);
        assert(loc_views(clones[k].locations@).contains(lv));
        assert(loc_views(e0[mm].1@).contains(lv));
        let h = e0[mm].0 as int;
        let pred = |rr: RecV| rr.hash == h;
        assert(loc_views(e0[mm].1@) == recs_with_hash(recs, h));
        let l2 = choose|l2: int|
            0 <= l2 < loc_views(e0[mm].1@).len() && loc_views(e0[mm].1@)[l2] == lv;
        assert(recs_with_hash(recs, h).len() == recs.filter(pred).len());
        lemma_filter_elem(recs, pred, l2);
        let j = choose|j: int| 0 <= j < recs.len() && #[trigger] recs[j] == recs.filter(pred)[l2];
        assert(recs_with_hash(recs, h)[l2] == rec_loc(recs.filter(pred)[l2]));
        assert(recs[j].hash == h && rec_loc(recs[j]) == lv);
        assert(loc_backed(recs, clones[k].hash as int, lv));
    }
    // Completeness: distinct places sharing a hash meet in one group.
    assert forall|j1: int, j2: int|
        0 <= j1 < j2 < recs.len() && (#[trigger] recs[j1]).hash == (#[trigger] recs[j2]).hash
            && rec_loc(recs[j1]) != rec_loc(recs[j2]) implies grouped_together(
        clones,
        recs[j1].hash,
        rec_loc(recs[j1]),
        rec_loc(recs[j2]),
    ) by {
        let h = recs[j1].hash;
        let pred = |rr: RecV| rr.hash == h;
        let mm = choose|mm: int| 0 <= mm < e0.len() && (#[trigger] e0[mm]).0 as int == recs[
            j1].hash;
        assert(loc_views(e0[mm].1@) == recs_with_hash(recs, h));
        recs.lemma_filter_contains(pred, j1);
        recs.lemma_filter_contains(pred, j2);
        let l1 = choose|l: int|
            0 <= l < recs.filter(pred).len() && recs.filter(pred)[l] == recs[j1];
        let l2 = choose|l: int|
            0 <= l < recs.filter(pred).len() && recs.filter(pred)[l] == recs[j2];
        assert(recs_with_hash(recs, h)[l1] == rec_loc(recs[j1]));
        assert(recs_with_hash(recs, h)[l2] == rec_loc(recs[j2]));
        assert(loc_views(e0[mm].1@).contains(rec_loc(recs[j1])));
        assert(loc_views(e0[mm].1@).contains(rec_loc(recs[j2])));
        // Two distinct places in the bucket force a group.
        let b1 = choose|b: int|
            0 <= b < loc_views(e0[mm].1@).len() && loc_views(e0[mm].1@)[b] == rec_loc(recs[j1]);
        let b2 = choose|b: int|
            0 <= b < loc_views(e0[mm].1@).len() && loc_views(e0[mm].1@)[b] == rec_loc(recs[j2]);
        assert(b1 != b2);
        if b1 < b2 {
            assert(loc_view(e0[mm].1@[b1]) != loc_view(e0[mm].1@[b2]));
            assert(two_distinct(e0[mm].1@));
        } else {
            assert(loc_view(e0[mm].1@[b2]) != loc_view(e0[mm].1@[b1]));
            assert(two_distinct(e0[mm].1@));
        }
        assert(cross_answered(clones, e0, mm));
        let k = choose|k: int| 0 <= k < clones.len() && #[trigger] derived_from(clones, k, e0, mm);
        assert(loc_views(clones[k].locations@).contains(rec_loc(recs[j1])));
        assert(loc_views(clones[k].locations@).contains(rec_loc(recs[j2])));
        assert(grouped_together(clones, recs[j1].hash, rec_loc(recs[j1]), rec_loc(recs[j2])));
    }
}

/// Sort, deduplicate and number each multi-occurrence bucket into a
/// clone group.
#[verifier::rlimit(60)]
fn build_cross_clones(
    entries: Vec<(u64, Vec<CloneLocation>)>,
    window_size: usize,
    ghost_recs: Ghost<Seq<RecV>>,
) -> (r: Vec<Clone>)
    requires
        map_ok(entries@, ghost_recs@),
    ensures
        cross_clones_ok(r@, ghost_recs@, window_size as int),
{
    let ghost recs = ghost_recs@;
    let ghost e0 = entries@;
    let mut rest = entries;
    let total = rest.len();
    let mut clones: Vec<Clone> = Vec::new();
    let mut m: usize = 0;
    while rest.len() > 0
        invariant
            e0.len() == total,
            m + rest@.len() == e0.len(),
            clones@.len() <= m,
            forall|m1: int, m2: int|
                0 <= m1 < m2 < e0.len() ==> (#[trigger] e0[m1]).0 != (#[trigger] e0[m2]).0,
            forall|x: int| 0 <= x < rest@.len() ==> #[trigger] rest@[x] == e0[m + x],
            forall|k: int| 0 <= k < clones@.len() ==> (#[trigger] clones@[k]).length
                == window_size,
            forall|k: int| 0 <= k < clones@.len() ==> (#[trigger] clones@[k]).locations@.len()
                >= 2,
            forall|k: int| 0 <= k < clones@.len() ==> (#[trigger] clones@[k]).id == k + 1,
            forall|k1: int, k2: int|
                0 <= k1 < k2 < clones@.len() ==> (#[trigger] clones@[k1]).hash != (
                #[trigger] clones@[k2]).hash,
            forall|k: int| 0 <= k < clones@.len() ==> #[trigger] cross_copies(
                clones@,
                k,
                e0,
                m as int,
            ),
            forall|mm: int|
                0 <= mm < m && two_distinct((#[trigger] e0[mm]).1@) ==> cross_answered(
                    clones@,
                    e0,
                    mm,
                ),
        decreases rest@.len(),
    {
        let ghost before = rest@;
        let entry = rest.remove(0);
        proof {
            assert(entry == e0[m as int]);
            assert(forall|x: int| 0 <= x < rest@.len() ==> #[trigger] rest@[x] == before[x + 1]);
        }
        let hash = entry.0;
        let sorted_locs = sort_locations(entry.1);
        let deduped = dedup_locations(sorted_locs);
        let ghost old_clones = clones@;
        proof {
            // The deduplicated places are exactly the bucket's places.
            assert forall|lv: (Seq<char>, int, int)|
                #![trigger loc_views(deduped@).contains(lv)]
                loc_views(deduped@).contains(lv) <==> loc_views(e0[m as int].1@).contains(
                lv,
            ) by {
                vstd::seq_lib::to_multiset_contains(loc_views(sorted_locs@), lv);
                vstd::seq_lib::to_multiset_contains(loc_views(e0[m as int].1@), lv);
            }
        }
        if deduped.len() > 1 {
            let id = clones.len() + 1;
            let clone_group = Clone {
                id,
                length: window_size,
                locations: deduped,
                hash,
            };
            let ghost cg = clone_group;
            clones.push(clone_group);
            proof {
                assert(clones@[clones@.len() - 1] == cg);
                assert(forall|k: int|
                    0 <= k < old_clones.len() ==> #[trigger] clones@[k] == old_clones[k]);
                assert(derived_from(clones@, clones@.len() - 1, e0, m as int));
                assert forall|k1: int, k2: int|
                    0 <= k1 < k2 < clones@.len() implies (#[trigger] clones@[k1]).hash != (
                #[trigger] clones@[k2]).hash by {
                    if k2 == clones@.len() - 1 {
                        assert(cross_copies(old_clones, k1, e0, m as int));
                        let mm = choose|mm: int|
                            0 <= mm < m && #[trigger] derived_from(old_clones, k1, e0, mm);
                        assert(old_clones[k1].hash == e0[mm].0);
                        assert(e0[mm].0 != e0[m as int].0);
                    }
                }
                assert forall|k: int| 0 <= k < clones@.len() implies #[trigger] cross_copies(
                    clones@,
                    k,
                    e0,
                    m as int + 1,
                ) by {
                    if k < old_clones.len() {
                        assert(cross_copies(old_clones, k, e0, m as int));
                        let mm = choose|mm: int|
                            0 <= mm < m && #[trigger] derived_from(old_clones, k, e0, mm);
                        assert(derived_from(clones@, k, e0, mm));
                    } else {
                        assert(derived_from(clones@, k, e0, m as int));
                    }
                }
                assert forall|mm: int|
                    0 <= mm < m as int + 1 && two_distinct((#[trigger] e0[mm]).1@)
                    implies cross_answered(clones@, e0, mm) by {
                    if mm < m as int {
                        assert(cross_answered(old_clones, e0, mm));
                        let k0 = choose|k0: int|
                            0 <= k0 < old_clones.len() && #[trigger] derived_from(
                                old_clones,
                                k0,
                                e0,
                                mm,
                            );
                        assert(derived_from(clones@, k0, e0, mm));
                    } else {
                        assert(derived_from(clones@, clones@.len() - 1, e0, mm));
                    }
                }
            }
        } else {
            proof {
                // A bucket kept to one place has no two distinct places.
                assert forall|mm: int|
                    0 <= mm < m as int + 1 && two_distinct((#[trigger] e0[mm]).1@)
                    implies cross_answered(clones@, e0, mm) by {
                    if mm < m as int {
                    } else {
                        let (x, y) = choose|x: int, y: int|
                            0 <= x < y < e0[mm].1@.len() && loc_view(
                                #[trigger] e0[mm].1@[x],
                            ) != loc_view(#[trigger] e0[mm].1@[y]);
                        let lvx = loc_view(e0[mm].1@[x]);
                        let lvy = loc_view(e0[mm].1@[y]);
                        assert(loc_views(e0[mm].1@)[x] == lvx);
                        assert(loc_views(e0[mm].1@)[y] == lvy);
                        assert(loc_views(e0[mm].1@).contains(lvx));
                        assert(loc_views(e0[mm].1@).contains(lvy));
                        assert(loc_views(deduped@).contains(lvx));
                        assert(loc_views(deduped@).contains(lvy));
                        let dx = choose|d: int|
                            0 <= d < loc_views(deduped@).len() && loc_views(deduped@)[d] == lvx;
                        let dy = choose|d: int|
                            0 <= d < loc_views(deduped@).len() && loc_views(deduped@)[d] == lvy;
                        assert(dx != dy);
                        assert(deduped@.len() >= 2);
                        assert(false);
                    }
                }
                assert forall|k: int| 0 <= k < clones@.len() implies #[trigger] cross_copies(
                    clones@,
                    k,
                    e0,
                    m as int + 1,
                ) by {
                    assert(cross_copies(clones@, k, e0, m as int));
                    let mm = choose|mm: int|
                        0 <= mm < m && #[trigger] derived_from(clones@, k, e0, mm);
                }
            }
        }
        m = m + 1;
    }
    proof {
        assert(m as int == e0.len());
        lemma_cross_clones_from_entries(clones@, e0, recs, window_size as int);
    }
    clones
}


/// Rank clone groups by how often they occur, most occurrences first.
fn sort_clones_desc(clones: Vec<Clone>) -> (r: Vec<Clone>)
    ensures
        r@.to_multiset() == clones@.to_multiset(),
        r@.len() == clones@.len(),
        forall|k1: int, k2: int|
            0 <= k1 < k2 < r@.len() ==> (#[trigger] r@[k1]).locations@.len() >= (
            #[trigger] r@[k2]).locations@.len(),
{
    let mut rest = clones;
    let mut sorted: Vec<Clone> = Vec::new();
    proof {
        vstd::seq_lib::to_multiset_len(sorted@);
        vstd::multiset::lemma_multiset_empty_len(sorted@.to_multiset());
        assert(sorted@.to_multiset().add(rest@.to_multiset()) =~= clones@.to_multiset());
    }
    while rest.len() > 0
        invariant
            sorted@.to_multiset().add(rest@.to_multiset()) == clones@.to_multiset(),
            sorted@.len() + rest@.len() == clones@.len(),
            forall|k1: int, k2: int|
                0 <= k1 < k2 < sorted@.len() ==> (#[trigger] sorted@[k1]).locations@.len() >= (
                #[trigger] sorted@[k2]).locations@.len(),
            forall|a: int, b: int|
                0 <= a < sorted@.len() && 0 <= b < rest@.len() ==> (
                #[trigger] sorted@[a]).locations@.len() >= (#[trigger] rest@[b]).locations@.len(),
        decreases rest@.len(),
    {
        let mut best_idx: usize = 0;
        let mut best = rest[0].locations.len();
        let mut j: usize = 1;
        while j < rest.len()
            invariant
                0 < rest@.len(),
                best_idx < rest@.len(),
                j <= rest@.len(),
                best == rest@[best_idx as int].locations@.len(),
                forall|x: int|
                    0 <= x < j ==> (#[trigger] rest@[x]).locations@.len() <= best,
            decreases rest@.len() - j,
        {
            let v = rest[j].locations.len();
            if v > best {
                best = v;
                best_idx = j;
            }
            j = j + 1;
        }
        let ghost old_rest = rest@;
        let ghost old_sorted = sorted@;
        let picked = rest.remove(best_idx);
        proof {
            assert(rest@ == old_rest.remove(best_idx as int));
            vstd::seq_lib::to_multiset_remove(old_rest, best_idx as int);
            assert(old_rest.contains(picked));
            vstd::seq_lib::to_multiset_contains(old_rest, picked);
            assert(forall|b: int|
                0 <= b < rest@.len() ==> rest@[b] == old_rest[if b < best_idx as int {
                    b
                } else {
                    b + 1
                }]);
        }
        sorted.push(picked);
        proof {
            assert(sorted@ == old_sorted.push(picked));
            vstd::seq_lib::to_multiset_build(old_sorted, picked);
            assert(sorted@.to_multiset().add(rest@.to_multiset()) =~= clones@.to_multiset());
            assert(forall|a: int| 0 <= a < old_sorted.len() ==> sorted@[a] == old_sorted[a]);
            assert(sorted@[sorted@.len() - 1] == picked);
        }
    }
    proof {
        vstd::seq_lib::to_multiset_len(rest@);
        vstd::multiset::lemma_multiset_empty_len(rest@.to_multiset());
        assert(rest@.to_multiset() =~= Multiset::<Clone>::empty());
        assert(sorted@.to_multiset() =~= clones@.to_multiset());
    }
    sorted
}

/// The cross-file promises survive reordering the groups: every
/// per-group fact rides with its value, and the two global facts
/// (distinct ids and hashes, completeness) transfer through the
/// one-to-one correspondence.
proof fn lemma_cross_props_permute(a: Seq<Clone>, b: Seq<Clone>, recs: Seq<RecV>, ws: int)
    requires
        a.to_multiset() == b.to_multiset(),
        a.len() == b.len(),
        cross_clones_ok(a, recs, ws),
    ensures
        forall|k: int| 0 <= k < b.len() ==> (#[trigger] b[k]).length == ws,
        forall|k: int| 0 <= k < b.len() ==> (#[trigger] b[k]).locations@.len() >= 2,
        forall|k: int| 0 <= k < b.len() ==> 1 <= (#[trigger] b[k]).id <= b.len(),
        forall|k1: int, k2: int|
            0 <= k1 < k2 < b.len() ==> (#[trigger] b[k1]).id != (#[trigger] b[k2]).id,
        forall|k1: int, k2: int|
            0 <= k1 < k2 < b.len() ==> (#[trigger] b[k1]).hash != (#[trigger] b[k2]).hash,
        forall|k: int| 0 <= k < b.len() ==> locs_sorted((#[trigger] b[k]).locations@),
        forall|k: int| 0 <= k < b.len() ==> locs_distinct((#[trigger] b[k]).locations@),
        forall|k: int, l: int|
            #![trigger b[k].locations@[l]]
            0 <= k < b.len() && 0 <= l < b[k].locations@.len() ==> loc_backed(
                recs,
                b[k].hash as int,
                loc_view(b[k].locations@[l]),
            ),
        forall|j1: int, j2: int|
            0 <= j1 < j2 < recs.len() && (#[trigger] recs[j1]).hash == (#[trigger] recs[j2]).hash
                && rec_loc(recs[j1]) != rec_loc(recs[j2]) ==> grouped_together(
                b,
                recs[j1].hash,
                rec_loc(recs[j1]),
                rec_loc(recs[j2]),
            ),
{
    assert(a.no_duplicates()) by {
        assert forall|i: int, j: int|
            0 <= i < a.len() && 0 <= j < a.len() && i != j implies a[i] != a[j] by {
            if i < j {
                assert(a[i].id != a[j].id);
            } else {
                assert(a[j].id != a[i].id);
            }
        }
    }
    a.lemma_multiset_has_no_duplicates();
    b.lemma_multiset_has_no_duplicates_conv();
    assert forall|k: int| 0 <= k < b.len() implies a.contains(#[trigger] b[k]) by {
        assert(b.contains(b[k]));
        vstd::seq_lib::to_multiset_contains(b, b[k]);
        vstd::seq_lib::to_multiset_contains(a, b[k]);
    }
    assert forall|k1: int, k2: int|
        0 <= k1 < k2 < b.len() implies (#[trigger] b[k1]).id != (#[trigger] b[k2]).id && (
    b[k1]).hash != (b[k2]).hash by {
        assert(b[k1] != b[k2]);
        assert(a.contains(b[k1]));
        assert(a.contains(b[k2]));
        let ka1 = choose|ka: int| 0 <= ka < a.len() && a[ka] == b[k1];
        let ka2 = choose|ka: int| 0 <= ka < a.len() && a[ka] == b[k2];
        assert(ka1 != ka2);
        if ka1 < ka2 {
            assert(a[ka1].id != a[ka2].id && a[ka1].hash != a[ka2].hash);
        } else {
            assert(a[ka2].id != a[ka1].id && a[ka2].hash != a[ka1].hash);
        }
    }
    assert forall|k: int| 0 <= k < b.len() implies (#[trigger] b[k]).length == ws && b[
        k].locations@.len() >= 2 && 1 <= b[k].id <= b.len() && locs_sorted(b[k].locations@)
        && locs_distinct(b[k].locations@) by {
        assert(a.contains(b[k]));
        let ka = choose|ka: int| 0 <= ka < a.len() && a[ka] == b[k];
        assert(a[ka].length == ws && a[ka].locations@.len() >= 2 && 1 <= a[ka].id <= a.len());
        assert(locs_sorted(a[ka].locations@) && locs_distinct(a[ka].locations@));
    }
    assert forall|k: int, l: int|
        #![trigger b[k].locations@[l]]
        0 <= k < b.len() && 0 <= l < b[k].locations@.len() implies loc_backed(
        recs,
        b[k].hash as int,
        loc_view(b[k].locations@[l]),
    ) by {
        assert(a.contains(b[k]));
        let ka = choose|ka: int| 0 <= ka < a.len() && a[ka] == b[k];
        assert(loc_backed(recs, a[ka].hash as int, loc_view(a[ka].locations@[l])));
    }
    assert forall|j1: int, j2: int|
        0 <= j1 < j2 < recs.len() && (#[trigger] recs[j1]).hash == (#[trigger] recs[j2]).hash
            && rec_loc(recs[j1]) != rec_loc(recs[j2]) implies grouped_together(
        b,
        recs[j1].hash,
        rec_loc(recs[j1]),
        rec_loc(recs[j2]),
    ) by {
        assert(grouped_together(a, recs[j1].hash, rec_loc(recs[j1]), rec_loc(recs[j2])));
        let ka = choose|ka: int|
            0 <= ka < a.len() && (#[trigger] a[ka]).hash as int == recs[j1].hash && loc_views(
                a[ka].locations@,
            ).contains(rec_loc(recs[j1])) && loc_views(a[ka].locations@).contains(
                rec_loc(recs[j2]),
            );
        assert(a.contains(a[ka]));
        vstd::seq_lib::to_multiset_contains(a, a[ka]);
        vstd::seq_lib::to_multiset_contains(b, a[ka]);
        assert(b.contains(a[ka]));
        let kb = choose|kb: int| 0 <= kb < b.len() && b[kb] == a[ka];
        assert(b[kb].hash as int == recs[j1].hash);
        assert(grouped_together(b, recs[j1].hash, rec_loc(recs[j1]), rec_loc(recs[j2])));
    }
}

impl CloneDetector {
    /// Find repeated windows across a whole set of files, pooling every
    /// file's windows into one index.
    ///
    /// Each group's locations are ordered by file and line and hold no
    /// repeats; groups come most-frequent first. Any two windows from
    /// anywhere in the set that share a hash but name different places
    /// are reported together in one group.
    pub fn detect_across_files(&self, files: &Vec<(String, String, Language)>) -> (r: Result<
        Vec<Clone>,
        MccabreError,
    >)
        requires
            self.spec_window_size() >= 1,
            forall|f: int|
                0 <= f < files@.len() ==> (#[trigger] files@[f]).1@.len() < usize::MAX,
        ensures
            r matches Ok(cs) && {
                let recs = all_recs(files@, self.spec_window_size(), files@.len() as int);
                let ws = self.spec_window_size();
                &&& forall|k: int| 0 <= k < cs@.len() ==> (#[trigger] cs@[k]).length == ws
                &&& forall|k: int| 0 <= k < cs@.len() ==> (#[trigger] cs@[k]).locations@.len()
                    >= 2
                &&& forall|k: int| 0 <= k < cs@.len() ==> 1 <= (#[trigger] cs@[k]).id
                    <= cs@.len()
                &&& forall|k1: int, k2: int|
                    0 <= k1 < k2 < cs@.len() ==> (#[trigger] cs@[k1]).id != (
                    #[trigger] cs@[k2]).id
                &&& forall|k1: int, k2: int|
                    0 <= k1 < k2 < cs@.len() ==> (#[trigger] cs@[k1]).hash != (
                    #[trigger] cs@[k2]).hash
                &&& forall|k: int| 0 <= k < cs@.len() ==> locs_sorted(
                    (#[trigger] cs@[k]).locations@,
                )
                &&& forall|k: int| 0 <= k < cs@.len() ==> locs_distinct(
                    (#[trigger] cs@[k]).locations@,
                )
                &&& forall|k1: int, k2: int|
                    0 <= k1 < k2 < cs@.len() ==> (#[trigger] cs@[k1]).locations@.len() >= (
                    #[trigger] cs@[k2]).locations@.len()
                &&& forall|k: int, l: int|
                    #![trigger cs@[k].locations@[l]]
                    0 <= k < cs@.len() && 0 <= l < cs@[k].locations@.len() ==> loc_backed(
                        recs,
                        cs@[k].hash as int,
                        loc_view(cs@[k].locations@[l]),
                    )
                &&& forall|j1: int, j2: int|
                    0 <= j1 < j2 < recs.len() && (#[trigger] recs[j1]).hash == (
                    #[trigger] recs[j2]).hash && rec_loc(recs[j1]) != rec_loc(recs[j2])
                        ==> grouped_together(
                        cs@,
                        recs[j1].hash,
                        rec_loc(recs[j1]),
                        rec_loc(recs[j2]),
                    )
            },
    {
        let ghost ws = self.spec_window_size();
        let mut entries: Vec<(u64, Vec<CloneLocation>)> = Vec::new();
        let mut f: usize = 0;
        proof {
            assert(map_ok(entries@, all_recs(files@, ws, 0)));
        }
        while f < files.len()
            invariant
                f <= files@.len(),
                self.spec_window_size() == ws,
                ws >= 1,
                forall|x: int|
                    0 <= x < files@.len() ==> (#[trigger] files@[x]).1@.len() < usize::MAX,
                map_ok(entries@, all_recs(files@, ws, f as int)),
            decreases files@.len() - f,
        {
            match scan_file_into(
                &mut entries,
                self.window_size,
                files[f].1.as_str(),
                files[f].2,
                &files[f].0,
                Ghost(all_recs(files@, ws, f as int)),
            ) {
                Ok(_) => {},
                Err(e) => {
                    proof {
                        assert(false);
                    }
                    return Err(e);
                },
            }
            proof {
                assert(all_recs(files@, ws, f as int + 1) == all_recs(files@, ws, f as int)
                    + file_recs(files@[f as int].0@, files@[f as int].1@, ws));
            }
            f = f + 1;
        }
        let ghost recs = all_recs(files@, ws, files@.len() as int);
        let clones = build_cross_clones(entries, self.window_size, Ghost(recs));
        let sorted = sort_clones_desc(clones);
        proof {
            lemma_cross_props_permute(clones@, sorted@, recs, ws);
        }
        Ok(sorted)
    }
}

/// Two files holding windows of identical token texts are reported
/// together: some group names a place in each.
pub proof fn lemma_cross_file_clone(
    clones: Seq<Clone>,
    files: Seq<(String, String, Language)>,
    ws: int,
    f1: int,
    i1: int,
    f2: int,
    i2: int,
)
    requires
        0 <= f1 < files.len(),
        0 <= f2 < files.len(),
        files[f1].0@ != files[f2].0@,
        valid_window(files[f1].1@, i1, ws),
        valid_window(files[f2].1@, i2, ws),
        window_hash(files[f1].1@, i1, ws) == window_hash(files[f2].1@, i2, ws),
        forall|j1: int, j2: int|
            0 <= j1 < j2 < all_recs(files, ws, files.len() as int).len() && (#[trigger] all_recs(
                files,
                ws,
                files.len() as int,
            )[j1]).hash == (#[trigger] all_recs(files, ws, files.len() as int)[j2]).hash
                && rec_loc(all_recs(files, ws, files.len() as int)[j1]) != rec_loc(
                all_recs(files, ws, files.len() as int)[j2],
            ) ==> grouped_together(
                clones,
                all_recs(files, ws, files.len() as int)[j1].hash,
                rec_loc(all_recs(files, ws, files.len() as int)[j1]),
                rec_loc(all_recs(files, ws, files.len() as int)[j2]),
            ),
    ensures
        exists|k: int, l1: int, l2: int|
            #![trigger clones[k].locations@[l1], clones[k].locations@[l2]]
            0 <= k < clones.len() && 0 <= l1 < clones[k].locations@.len() && 0 <= l2
                < clones[k].locations@.len() && clones[k].locations@[l1].file@ == files[f1].0@
                && clones[k].locations@[l2].file@ == files[f2].0@,
{
    let recs = all_recs(files, ws, files.len() as int);
    lemma_all_recs_index(files, ws, files.len() as int, f1, i1);
    lemma_all_recs_index(files, ws, files.len() as int, f2, i2);
    let x1 = choose|x: int|
        0 <= x < recs.len() && #[trigger] recs[x] == window_rec(files[f1].0@, files[f1].1@, ws, i1);
    let x2 = choose|x: int|
        0 <= x < recs.len() && #[trigger] recs[x] == window_rec(files[f2].0@, files[f2].1@, ws, i2);
    assert(recs[x1].hash == recs[x2].hash);
    assert(rec_loc(recs[x1]).0 == files[f1].0@);
    assert(rec_loc(recs[x2]).0 == files[f2].0@);
    assert(rec_loc(recs[x1]) != rec_loc(recs[x2]));
    assert(x1 != x2);
    let ja = if x1 < x2 {
        x1
    } else {
        x2
    };
    let jb = if x1 < x2 {
        x2
    } else {
        x1
    };
    assert(grouped_together(clones, recs[ja].hash, rec_loc(recs[ja]), rec_loc(recs[jb])));
    let k = choose|k: int|
        0 <= k < clones.len() && (#[trigger] clones[k]).hash as int == recs[ja].hash && loc_views(
            clones[k].locations@,
        ).contains(rec_loc(recs[ja])) && loc_views(clones[k].locations@).contains(
            rec_loc(recs[jb]),
        );
    let l1 = choose|l: int|
        0 <= l < loc_views(clones[k].locations@).len() && loc_views(clones[k].locations@)[l]
            == rec_loc(recs[x1]);
    let l2 = choose|l: int|
        0 <= l < loc_views(clones[k].locations@).len() && loc_views(clones[k].locations@)[l]
            == rec_loc(recs[x2]);
    assert(clones[k].locations@[l1].file@ == files[f1].0@);
    assert(clones[k].locations@[l2].file@ == files[f2].0@);
}

} // verus!
