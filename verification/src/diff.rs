//! Comparing two lists of rows: the rows to delete from the first and to
//! add from the second so that the first becomes the second, found by
//! repeatedly taking the longest run of matching rows.
use vstd::prelude::*;
use crate::text::{all_ascii, is_ws, lit, sview, to_upper, trim, trim_end_seq, trim_seq, trim_start_seq, upper_text};

verus! {

/// What a span of a difference report says of its rows.
#[derive(Clone, Copy, Debug, PartialEq, Eq, Structural)]
pub enum EditAction {
    NoChange,
    Replace,
    DelSrc,
    AddDest,
}

/// A run of `len` rows at `src_index` of the source and `dest_index` of
/// the destination; an index that does not apply is -1.
#[derive(Clone, Copy, Debug, PartialEq, Eq, Structural)]
pub struct ResultSpan {
    pub action: EditAction,
    pub dest_index: i32,
    pub src_index: i32,
    pub len: i32,
}

/// The longest match found for one destination row: its source start and
/// length; a length of -1 says no match, -2 that none was looked for.
#[derive(Clone, Copy, PartialEq, Eq, Structural)]
pub struct State {
    pub start: i32,
    pub len: i32,
}

impl State {
    fn new() -> (s: Self)
        ensures
            s.start == -1 && s.len == -2,
    {
        State { start: -1i32, len: -2i32 }
    }

    fn end(&self) -> (e: i32)
        requires
            i32::MIN <= self.start + self.len <= i32::MAX,
            i32::MIN <= self.start + self.len - 1,
        ensures
            e == self.start + self.len - 1,
    {
        self.start + self.len - 1
    }

    fn length(&self) -> (l: i32)
        ensures
            l == (if self.len > 0 {
                self.len as int
            } else if self.len == 0 {
                1
            } else {
                0
            }),
    {
        if self.len > 0 {
            self.len
        } else if self.len == 0 {
            1
        } else {
            0
        }
    }

    fn status(&self) -> (st: i32)
        ensures
            st == (if self.len > 0 {
                1int
            } else if self.len == -1 {
                -1
            } else {
                -2
            }),
    {
        if self.len > 0 {
            1
        } else if self.len == -1 {
            -1
        } else {
            -2
        }
    }

    /// Keeps a match only if it lies in source rows `start` to `end` and is
    /// no longer than `maxposs`; says whether the state still answers.
    fn has_valid_length(&mut self, start: i32, end: i32, maxposs: i32) -> (b: bool)
        requires
            old(self).len > 0 ==> 0 <= old(self).start && old(self).start + old(self).len <= i32::MAX,
        ensures
            if old(self).len > 0 && (maxposs < old(self).len || old(self).start < start
                || old(self).start + old(self).len - 1 > end) {
                final(self).start == -1 && final(self).len == -2
            } else {
                *final(self) == *old(self)
            },
            b == (final(self).len != -2),
    {
        if self.len > 0 {
            if maxposs < self.len || self.start < start || self.end() > end {
                *self = State::new();
            }
        }
        self.len != -2
    }
}

/// Compares rows, on some fields or on all, with case and surrounding
/// whitespace ignored if asked.
pub struct Differ {
    pub fields: Option<Vec<usize>>,
    pub ignore_case: bool,
    pub trim: bool,
}

/// Field `i` of `row`, or empty past its end.
pub open spec fn row_field(row: Seq<Seq<char>>, i: int) -> Seq<char> {
    if 0 <= i < row.len() {
        row[i]
    } else {
        seq![]
    }
}

impl Differ {
    /// A differ over the given fields (all when `None`).
    pub fn new(fields: Option<Vec<usize>>, ignore_case: bool, trim: bool) -> (d: Self)
        ensures
            d.fields == fields,
            d.ignore_case == ignore_case,
            d.trim == trim,
    {
        Differ { fields, ignore_case, trim }
    }

    /// A field as it is compared.
    pub open spec fn norm(&self, s: Seq<char>) -> Seq<char> {
        let u = if self.ignore_case {
            upper_text(s)
        } else {
            s
        };
        if self.trim {
            trim_seq(u)
        } else {
            u
        }
    }

    /// Two fields differ once normalised.
    pub open spec fn fields_differ(&self, a: Seq<char>, b: Seq<char>) -> bool {
        self.norm(a) != self.norm(b)
    }

    /// Two rows differ in a compared field.
    pub open spec fn rows_differ(&self, a: Seq<Seq<char>>, b: Seq<Seq<char>>) -> bool {
        match self.fields {
            Some(fs) => exists|k: int|
                0 <= k < fs@.len() && #[trigger] self.fields_differ(
                    row_field(a, fs@[k] as int),
                    row_field(b, fs@[k] as int),
                ),
            None => exists|i: int|
                0 <= i < (if a.len() > b.len() {
                    a.len()
                } else {
                    b.len()
                }) && #[trigger] self.fields_differ(row_field(a, i), row_field(b, i)),
        }
    }

    /// Rows `s..s+len` of `src` match rows `d..d+len` of `dest`.
    pub open spec fn block_ok(
        &self,
        src: Seq<Vec<String>>,
        dest: Seq<Vec<String>>,
        d: int,
        s: int,
        len: int,
    ) -> bool {
        &&& 0 <= d && 0 <= s && 0 <= len
        &&& d + len <= dest.len()
        &&& s + len <= src.len()
        &&& forall|k: int|
            0 <= k < len ==> !#[trigger] self.rows_differ(sview(src[s + k]@), sview(dest[d + k]@))
    }

    fn norm_field(&self, s: &str) -> (r: String)
        ensures
            r@ == self.norm(s@),
    {
        let u = if self.ignore_case {
            to_upper(s)
        } else {
            lit(s)
        };
        if self.trim {
            trim(u.as_str())
        } else {
            u
        }
    }

    fn field_differs(&self, row_a: &Vec<String>, row_b: &Vec<String>, i: usize) -> (b: bool)
        ensures
            b == self.fields_differ(row_field(sview(row_a@), i as int), row_field(sview(row_b@), i as int)),
    {
        assert(sview(row_a@).len() == row_a@.len());
        assert(sview(row_b@).len() == row_b@.len());
        let ea = String::new();
        let eb = String::new();
        let a = if i < row_a.len() {
            &row_a[i]
        } else {
            &ea
        };
        let b = if i < row_b.len() {
            &row_b[i]
        } else {
            &eb
        };
        assert(a@ == row_field(sview(row_a@), i as int));
        assert(b@ == row_field(sview(row_b@), i as int));
        let na = self.norm_field(a.as_str());
        let nb = self.norm_field(b.as_str());
        na != nb
    }

    /// Whether rows `src` and `dest` differ in a compared field.
    fn not_eq(&self, src: &Vec<String>, dest: &Vec<String>) -> (b: bool)
        ensures
            b == self.rows_differ(sview(src@), sview(dest@)),
    {
        assert(sview(src@).len() == src@.len());
        assert(sview(dest@).len() == dest@.len());
        match &self.fields {
            Some(fs) => {
                let mut k: usize = 0;
                while k < fs.len()
                    invariant
                        k <= fs@.len(),
                        self.fields == Some(*fs),
                        forall|j: int|
                            0 <= j < k ==> !#[trigger] self.fields_differ(
                                row_field(sview(src@), fs@[j] as int),
                                row_field(sview(dest@), fs@[j] as int),
                            ),
                    decreases fs@.len() - k,
                {
                    if self.field_differs(src, dest, fs[k]) {
                        let ghost f = self.fields->0;
                        assert(f@ == fs@);
                        assert(self.fields_differ(
                            row_field(sview(src@), f@[k as int] as int),
                            row_field(sview(dest@), f@[k as int] as int),
                        ));
                        return true;
                    }
                    k += 1;
                }
                false
            },
            None => {
                let sz = if src.len() > dest.len() {
                    src.len()
                } else {
                    dest.len()
                };
                let mut i: usize = 0;
                while i < sz
                    invariant
                        i <= sz,
                        sz == (if src@.len() > dest@.len() {
                            src@.len()
                        } else {
                            dest@.len()
                        }),
                        self.fields is None,
                        sview(src@).len() == src@.len(),
                        sview(dest@).len() == dest@.len(),
                        forall|j: int|
                            0 <= j < i ==> !#[trigger] self.fields_differ(
                                row_field(sview(src@), j),
                                row_field(sview(dest@), j),
                            ),
                    decreases sz - i,
                {
                    if self.field_differs(src, dest, i) {
                        return true;
                    }
                    i += 1;
                }
                false
            },
        }
    }

    /// The number of matching rows from source row `si` and destination
    /// row `di`, up to `maxlen`.
    fn source_match_len(
        &self,
        src: &[Vec<String>],
        dest: &[Vec<String>],
        di: usize,
        si: usize,
        maxlen: usize,
    ) -> (n: usize)
        requires
            di + maxlen <= dest.len(),
            si + maxlen <= src.len(),
        ensures
            n <= maxlen,
            n == self.match_len(src@, dest@, di as int, si as int, maxlen as int),
            self.block_ok(src@, dest@, di as int, si as int, n as int),
            n < maxlen ==> self.rows_differ(sview(src@[si + n]@), sview(dest@[di + n]@)),
    {
        let mut matchcount: usize = 0;
        while matchcount < maxlen
            invariant
                matchcount <= maxlen,
                di + maxlen <= dest.len(),
                si + maxlen <= src.len(),
                self.block_ok(src@, dest@, di as int, si as int, matchcount as int),
                self.match_len(src@, dest@, di as int, si as int, maxlen as int) == matchcount
                    + self.match_len(
                    src@,
                    dest@,
                    di + matchcount,
                    si + matchcount,
                    maxlen - matchcount,
                ),
            decreases maxlen - matchcount,
        {
            if self.not_eq(&src[si + matchcount], &dest[di + matchcount]) {
                return matchcount;
            }
            matchcount += 1;
        }
        matchcount
    }
}

/// A state that no longer answers once its match leaves source rows
/// `start..=end` or is longer than `maxposs`: the state of no search.
pub open spec fn validated(st: State, start: int, end: int, maxposs: int) -> State {
    if st.len > 0 && (maxposs < st.len || st.start < start || st.start + st.len - 1 > end) {
        State { start: -1i32, len: -2i32 }
    } else {
        st
    }
}

impl Differ {
    /// How many rows match, one after the other, from source row `si` and
    /// destination row `di`, up to `maxlen`.
    pub open spec fn match_len(
        &self,
        src: Seq<Vec<String>>,
        dest: Seq<Vec<String>>,
        di: int,
        si: int,
        maxlen: int,
    ) -> int
        decreases maxlen,
    {
        if maxlen <= 0 {
            0
        } else if self.rows_differ(sview(src[si]@), sview(dest[di]@)) {
            0
        } else {
            1 + self.match_len(src, dest, di + 1, si + 1, maxlen - 1)
        }
    }

    /// The search for the longest run from destination row `di` among the
    /// source rows from `si` to `send`, with the best run so far: each
    /// start gives a run no longer than `maxdestlen`, and the search goes
    /// on after the best run found, or after the start when none is.
    pub open spec fn longest_from(
        &self,
        src: Seq<Vec<String>>,
        dest: Seq<Vec<String>>,
        di: int,
        maxdestlen: int,
        si: int,
        send: int,
        bestlen: int,
        besti: int,
    ) -> (int, int)
        decreases if si <= send {
            send + 1 - si
        } else {
            0
        },
    {
        if si > send {
            (bestlen, besti)
        } else {
            let maxlen = if maxdestlen < send - si + 1 {
                maxdestlen
            } else {
                send - si + 1
            };
            if maxlen <= bestlen {
                (bestlen, besti)
            } else {
                let cur = self.match_len(src, dest, di, si, maxlen);
                let bl = if cur > bestlen {
                    cur
                } else {
                    bestlen
                };
                let bi = if cur > bestlen {
                    si
                } else {
                    besti
                };
                let next = if bl <= 0 {
                    si + 1
                } else {
                    si + bl
                };
                self.longest_from(src, dest, di, maxdestlen, next, send, bl, bi)
            }
        }
    }

    /// The longest run from destination row `di` (ending by `dend`) among
    /// source rows `sstart..=send` (see [`Differ::longest_from`]); a length
    /// of -1 when there is none.
    pub open spec fn longest(
        &self,
        src: Seq<Vec<String>>,
        dest: Seq<Vec<String>>,
        di: int,
        dend: int,
        sstart: int,
        send: int,
    ) -> State {
        let (bl, bi) = self.longest_from(src, dest, di, dend - di + 1, sstart, send, 0, -1);
        if bi == -1 {
            State { start: -1i32, len: -1i32 }
        } else {
            State { start: bi as i32, len: bl as i32 }
        }
    }
}

impl Differ {
    /// The scan of destination rows `di..=dend` for the row with the
    /// longest run into source rows `sstart..=send`: each row's state is
    /// kept while it still answers and searched anew otherwise, and the
    /// scan stops once no row left can give a longer run than the best so
    /// far. Gives the states, the best length, row and source start.
    pub open spec fn scan_from(
        &self,
        src: Seq<Vec<String>>,
        dest: Seq<Vec<String>>,
        dend: int,
        sstart: int,
        send: int,
        di: int,
        states: Seq<State>,
        bestlen: int,
        bestindex: int,
        beststart: int,
    ) -> (Seq<State>, int, int, int)
        decreases dend + 1 - di,
    {
        if di > dend || dend - di + 1 <= bestlen {
            (states, bestlen, bestindex, beststart)
        } else {
            let v = validated(states[di], sstart, send, dend - di + 1);
            let st = if v.len != -2 {
                v
            } else {
                self.longest(src, dest, di, dend, sstart, send)
            };
            let ns = states.update(di, st);
            if st.len > 0 && st.len > bestlen {
                self.scan_from(src, dest, dend, sstart, send, di + 1, ns, st.len as int, di, st.start as int)
            } else {
                self.scan_from(src, dest, dend, sstart, send, di + 1, ns, bestlen, bestindex, beststart)
            }
        }
    }

    /// The runs that the search over destination rows `dstart..=dend` and
    /// source rows `sstart..=send` finds, in order, and the states after
    /// it: the longest run, with the search before it and after it.
    pub open spec fn process(
        &self,
        src: Seq<Vec<String>>,
        dest: Seq<Vec<String>>,
        dstart: int,
        dend: int,
        sstart: int,
        send: int,
        states: Seq<State>,
    ) -> (Seq<ResultSpan>, Seq<State>)
        decreases dend - dstart,
    {
        let (st1, bl, bi, bs) = self.scan_from(src, dest, dend, sstart, send, dstart, states, -1, -1, -1);
        proof {
            lemma_scan_bounds(*self, src, dest, dend, sstart, send, dstart, states, -1, -1, -1);
        }
        if bi >= 0 {
            let m = ResultSpan {
                action: EditAction::NoChange,
                dest_index: bi as i32,
                src_index: bs as i32,
                len: bl as i32,
            };
            let (left, st2) = if dstart < bi && sstart < bs {
                self.process(src, dest, dstart, bi - 1, sstart, bs - 1, st1)
            } else {
                (Seq::<ResultSpan>::empty(), st1)
            };
            let (right, st3) = if dend > bi + bl && send > bs + bl {
                self.process(src, dest, bi + bl, dend, bs + bl, send, st2)
            } else {
                (Seq::<ResultSpan>::empty(), st2)
            };
            (left.push(m) + right, st3)
        } else {
            (Seq::<ResultSpan>::empty(), st1)
        }
    }
}

/// The scan keeps the best row it was given, or finds a longer run at a
/// row it looked at.
pub proof fn lemma_scan_bounds(
    d: Differ,
    src: Seq<Vec<String>>,
    dest: Seq<Vec<String>>,
    dend: int,
    sstart: int,
    send: int,
    di: int,
    states: Seq<State>,
    bestlen: int,
    bestindex: int,
    beststart: int,
)
    ensures
        ({
            let r = d.scan_from(src, dest, dend, sstart, send, di, states, bestlen, bestindex, beststart);
            (r.1 == bestlen && r.2 == bestindex) || (di <= r.2 <= dend && r.1 >= 1 && r.1 > bestlen)
        }),
    decreases dend + 1 - di,
{
    if di > dend || dend - di + 1 <= bestlen {
    } else {
        let v = validated(states[di], sstart, send, dend - di + 1);
        let st = if v.len != -2 {
            v
        } else {
            d.longest(src, dest, di, dend, sstart, send)
        };
        let ns = states.update(di, st);
        if st.len > 0 && st.len > bestlen {
            lemma_scan_bounds(d, src, dest, dend, sstart, send, di + 1, ns, st.len as int, di, st.start as int);
        } else {
            lemma_scan_bounds(d, src, dest, dend, sstart, send, di + 1, ns, bestlen, bestindex, beststart);
        }
    }
}

impl Differ {
    /// A state holds no match, or a run of matching rows from destination
    /// row `di`.
    spec fn state_ok(&self, src: Seq<Vec<String>>, dest: Seq<Vec<String>>, di: int, st: State) -> bool {
        ||| st.len == -2
        ||| st.len == -1
        ||| st.len > 0 && self.block_ok(src, dest, di, st.start as int, st.len as int)
    }

    spec fn states_ok(&self, src: Seq<Vec<String>>, dest: Seq<Vec<String>>, states: Seq<State>) -> bool {
        &&& states.len() == dest.len()
        &&& forall|i: int| 0 <= i < states.len() ==> #[trigger] self.state_ok(src, dest, i, states[i])
    }

    /// `ms` are runs of matching rows inside destination rows `dlo..dhi`
    /// and source rows `slo..shi`, each after the one before in both.
    pub open spec fn chain_in(
        &self,
        src: Seq<Vec<String>>,
        dest: Seq<Vec<String>>,
        ms: Seq<ResultSpan>,
        dlo: int,
        dhi: int,
        slo: int,
        shi: int,
    ) -> bool {
        &&& forall|i: int|
            0 <= i < ms.len() ==> {
                &&& (#[trigger] ms[i]).action == EditAction::NoChange
                &&& ms[i].len > 0
                &&& dlo <= ms[i].dest_index
                &&& ms[i].dest_index + ms[i].len <= dhi
                &&& slo <= ms[i].src_index
                &&& ms[i].src_index + ms[i].len <= shi
                &&& self.block_ok(
                    src,
                    dest,
                    ms[i].dest_index as int,
                    ms[i].src_index as int,
                    ms[i].len as int,
                )
            }
        &&& forall|i: int, j: int|
            0 <= i < j < ms.len() ==> #[trigger] ms[i].dest_index + ms[i].len <= #[trigger] ms[j].dest_index
                && ms[i].src_index + ms[i].len <= ms[j].src_index
    }

    /// Finds, for destination row `di`, the source row in `sstart..=send`
    /// where the longest run of matching rows starts, the run ending by
    /// destination row `dend`; source rows inside a run already found are
    /// skipped.
    fn longest_source_match(
        &self,
        src: &[Vec<String>],
        dest: &[Vec<String>],
        curitem: &mut State,
        di: usize,
        dend: usize,
        sstart: usize,
        send: usize,
    )
        requires
            di <= dend < dest.len() <= i32::MAX,
            sstart <= send < src.len() <= i32::MAX,
        ensures
            final(curitem).len == -1 || (final(curitem).len > 0 && sstart <= final(curitem).start
                && final(curitem).start + final(curitem).len <= send + 1 && final(curitem).len
                <= dend - di + 1 && self.block_ok(
                src@,
                dest@,
                di as int,
                final(curitem).start as int,
                final(curitem).len as int,
            )),
            *final(curitem) == self.longest(
                src@,
                dest@,
                di as int,
                dend as int,
                sstart as int,
                send as int,
            ),
    {
        let maxdestlen = (dend - di) + 1;
        let mut bestlen: usize = 0;
        let mut besti: i32 = -1;
        let mut si = sstart;
        while si <= send
            invariant
                di <= dend < dest.len() <= i32::MAX,
                sstart <= send < src.len() <= i32::MAX,
                maxdestlen == dend - di + 1,
                sstart <= si <= 2 * (i32::MAX as int) + 1,
                besti == -1 ==> bestlen == 0,
                besti != -1 ==> (bestlen > 0 && sstart <= besti && besti + bestlen <= send + 1
                    && bestlen <= maxdestlen && self.block_ok(
                    src@,
                    dest@,
                    di as int,
                    besti as int,
                    bestlen as int,
                )),
                self.longest_from(src@, dest@, di as int, maxdestlen as int, sstart as int, send as int, 0, -1)
                    == self.longest_from(
                    src@,
                    dest@,
                    di as int,
                    maxdestlen as int,
                    si as int,
                    send as int,
                    bestlen as int,
                    besti as int,
                ),
            ensures
                besti == -1 ==> bestlen == 0,
                besti != -1 ==> (bestlen > 0 && sstart <= besti && besti + bestlen <= send + 1
                    && bestlen <= maxdestlen && self.block_ok(
                    src@,
                    dest@,
                    di as int,
                    besti as int,
                    bestlen as int,
                )),
                self.longest_from(src@, dest@, di as int, maxdestlen as int, sstart as int, send as int, 0, -1)
                    == (bestlen as int, besti as int),
            decreases 2 * (i32::MAX as int) + 2 - si,
        {
            let rest = (send - si) + 1;
            let maxlen = if maxdestlen < rest {
                maxdestlen
            } else {
                rest
            };
            if maxlen <= bestlen {
                break;
            }
            let curlen = self.source_match_len(src, dest, di, si, maxlen);
            if curlen > bestlen {
                besti = si as i32;
                bestlen = curlen;
            }
            si += bestlen;
            if bestlen == 0 {
                si += 1;
            }
        }
        if besti == -1 {
            curitem.start = -1;
            curitem.len = -1;
        } else {
            curitem.start = besti;
            curitem.len = bestlen as i32;
        }
    }

    /// Adds to `matches`, in order, the runs of matching rows of
    /// destination rows `dstart..=dend` and source rows `sstart..=send`:
    /// the longest run, then the same search before it and after it.
    /// `states` keeps each destination row's last match between calls.
    fn process_range(
        &self,
        src: &[Vec<String>],
        dest: &[Vec<String>],
        dstart: i32,
        dend: i32,
        sstart: i32,
        send: i32,
        matches: &mut Vec<ResultSpan>,
        states: &mut Vec<State>,
    )
        requires
            0 <= dstart <= dend < dest.len() <= i32::MAX,
            0 <= sstart <= send < src.len() <= i32::MAX,
            self.states_ok(src@, dest@, old(states)@),
        ensures
            self.states_ok(src@, dest@, final(states)@),
            final(matches)@.len() >= old(matches)@.len(),
            final(matches)@.subrange(0, old(matches)@.len() as int) == old(matches)@,
            self.chain_in(
                src@,
                dest@,
                final(matches)@.subrange(old(matches)@.len() as int, final(matches)@.len() as int),
                dstart as int,
                dend + 1,
                sstart as int,
                send + 1,
            ),
            final(matches)@ == old(matches)@ + self.process(
                src@,
                dest@,
                dstart as int,
                dend as int,
                sstart as int,
                send as int,
                old(states)@,
            ).0,
            final(states)@ == self.process(
                src@,
                dest@,
                dstart as int,
                dend as int,
                sstart as int,
                send as int,
                old(states)@,
            ).1,
        decreases dend - dstart,
    {
        let ghost s0 = states@;
        let mut bestlen: i32 = -1;
        let mut bestindex: i32 = -1;
        let mut beststart: i32 = -1;
        let mut di = dstart;
        while di <= dend
            invariant
                0 <= dstart <= dend < dest.len() <= i32::MAX,
                0 <= sstart <= send < src.len() <= i32::MAX,
                dstart <= di <= dend + 1,
                self.states_ok(src@, dest@, states@),
                bestindex == -1 ==> bestlen == -1,
                bestindex != -1 ==> (bestlen > 0 && dstart <= bestindex < di && bestindex + bestlen
                    <= dend + 1 && sstart <= beststart && beststart + bestlen <= send + 1
                    && self.block_ok(
                    src@,
                    dest@,
                    bestindex as int,
                    beststart as int,
                    bestlen as int,
                )),
                self.scan_from(src@, dest@, dend as int, sstart as int, send as int, dstart as int, s0, -1, -1, -1)
                    == self.scan_from(
                    src@,
                    dest@,
                    dend as int,
                    sstart as int,
                    send as int,
                    di as int,
                    states@,
                    bestlen as int,
                    bestindex as int,
                    beststart as int,
                ),
            ensures
                self.states_ok(src@, dest@, states@),
                bestindex == -1 ==> bestlen == -1,
                bestindex != -1 ==> (bestlen > 0 && dstart <= bestindex <= dend && bestindex + bestlen
                    <= dend + 1 && sstart <= beststart && beststart + bestlen <= send + 1
                    && self.block_ok(
                    src@,
                    dest@,
                    bestindex as int,
                    beststart as int,
                    bestlen as int,
                )),
                self.scan_from(src@, dest@, dend as int, sstart as int, send as int, dstart as int, s0, -1, -1, -1)
                    == (states@, bestlen as int, bestindex as int, beststart as int),
            decreases dend + 1 - di,
        {
            let maxposlen = (dend - di) + 1;
            if maxposlen <= bestlen {
                break;
            }
            let ghost idx = di as int;
            assert(self.state_ok(src@, dest@, idx, states@[idx]));
            let mut st = State { start: states[di as usize].start, len: states[di as usize].len };
            let valid = st.has_valid_length(sstart, send, maxposlen);
            if !valid {
                let mut temp = State::new();
                self.longest_source_match(
                    src,
                    dest,
                    &mut temp,
                    di as usize,
                    dend as usize,
                    sstart as usize,
                    send as usize,
                );
                st = temp;
            }
            let ghost before = states@;
            states.set(di as usize, State { start: st.start, len: st.len });
            assert forall|i: int| 0 <= i < states@.len() implies #[trigger] self.state_ok(
                src@,
                dest@,
                i,
                states@[i],
            ) by {
                if i != idx {
                    assert(states@[i] == before[i]);
                    assert(self.state_ok(src@, dest@, i, before[i]));
                }
            }
            if st.status() == 1 {
                if st.length() > bestlen {
                    bestindex = di;
                    bestlen = st.length();
                    beststart = st.start;
                }
            }
            di += 1;
        }
        if bestindex >= 0 {
            let si = beststart;
            let ghost m0 = old(matches)@;
            let m = ResultSpan {
                action: EditAction::NoChange,
                dest_index: bestindex,
                src_index: si,
                len: bestlen,
            };
            if dstart < bestindex {
                if sstart < si {
                    self.process_range(
                        src,
                        dest,
                        dstart,
                        bestindex - 1,
                        sstart,
                        si - 1,
                        matches,
                        states,
                    );
                }
            }
            let ghost m1 = matches@;
            proof {
                if m1.len() == m0.len() {
                    assert(m1.subrange(m0.len() as int, m1.len() as int) =~= Seq::<ResultSpan>::empty());
                    assert(m1.subrange(0, m0.len() as int) =~= m0);
                }
            }
            matches.push(m);
            let ghost m2 = matches@;
            assert(m2.subrange(0, m1.len() as int) =~= m1);
            let udstart = bestindex + bestlen;
            let usstart = si + bestlen;
            if dend > udstart {
                if send > usstart {
                    self.process_range(
                        src,
                        dest,
                        udstart,
                        dend,
                        usstart,
                        send,
                        matches,
                        states,
                    );
                }
            }
            let ghost m3 = matches@;
            proof {
                assert(m3 =~= m0 + self.process(
                    src@,
                    dest@,
                    dstart as int,
                    dend as int,
                    sstart as int,
                    send as int,
                    s0,
                ).0);
                if m3.len() == m2.len() {
                    assert(m3.subrange(m2.len() as int, m3.len() as int) =~= Seq::<ResultSpan>::empty());
                }
                assert(m3.subrange(0, m1.len() as int) =~= m1) by {
                    assert forall|i: int| 0 <= i < m1.len() implies m3[i] == m1[i] by {
                        assert(m3.subrange(0, m2.len() as int)[i] == m3[i]);
                        assert(m2.subrange(0, m1.len() as int)[i] == m2[i]);
                    }
                }
                assert(m3[m1.len() as int] == m) by {
                    assert(m3.subrange(0, m2.len() as int)[m1.len() as int] == m3[m1.len() as int]);
                }
                lemma_chain_join(
                    *self,
                    src@,
                    dest@,
                    m0,
                    m1,
                    m,
                    m3,
                    dstart as int,
                    dend + 1,
                    sstart as int,
                    send + 1,
                );
            }
        } else {
            assert(matches@.subrange(old(matches)@.len() as int, matches@.len() as int)
                =~= Seq::<ResultSpan>::empty());
            assert(matches@.subrange(0, old(matches)@.len() as int) =~= old(matches)@);
        }
    }
}

/// A chain before a run, the run, and a chain after it make one chain.
proof fn lemma_chain_join(
    d: Differ,
    src: Seq<Vec<String>>,
    dest: Seq<Vec<String>>,
    m0: Seq<ResultSpan>,
    m1: Seq<ResultSpan>,
    m: ResultSpan,
    m3: Seq<ResultSpan>,
    dlo: int,
    dhi: int,
    slo: int,
    shi: int,
)
    requires
        m0.len() <= m1.len(),
        m1.subrange(0, m0.len() as int) == m0,
        m1.len() + 1 <= m3.len(),
        m3.subrange(0, m1.len() as int) == m1,
        m3[m1.len() as int] == m,
        m.action == EditAction::NoChange,
        m.len > 0,
        dlo <= m.dest_index,
        m.dest_index + m.len <= dhi,
        slo <= m.src_index,
        m.src_index + m.len <= shi,
        d.block_ok(src, dest, m.dest_index as int, m.src_index as int, m.len as int),
        d.chain_in(src, dest, m1.subrange(m0.len() as int, m1.len() as int), dlo, m.dest_index as int, slo, m.src_index as int),
        d.chain_in(
            src,
            dest,
            m3.subrange(m1.len() as int + 1, m3.len() as int),
            m.dest_index + m.len,
            dhi,
            m.src_index + m.len,
            shi,
        ),
    ensures
        m3.subrange(0, m0.len() as int) == m0,
        d.chain_in(src, dest, m3.subrange(m0.len() as int, m3.len() as int), dlo, dhi, slo, shi),
{
    let left = m1.subrange(m0.len() as int, m1.len() as int);
    let right = m3.subrange(m1.len() as int + 1, m3.len() as int);
    let all = m3.subrange(m0.len() as int, m3.len() as int);
    let a = m0.len() as int;
    let b = m1.len() as int;
    assert(m3.subrange(0, a) =~= m0) by {
        assert forall|i: int| 0 <= i < a implies m3[i] == m0[i] by {
            assert(m3.subrange(0, b)[i] == m3[i]);
            assert(m1.subrange(0, a)[i] == m1[i]);
        }
    }
    assert forall|i: int| 0 <= i < all.len() implies {
        &&& (#[trigger] all[i]).action == EditAction::NoChange
        &&& all[i].len > 0
        &&& dlo <= all[i].dest_index
        &&& all[i].dest_index + all[i].len <= dhi
        &&& slo <= all[i].src_index
        &&& all[i].src_index + all[i].len <= shi
        &&& d.block_ok(src, dest, all[i].dest_index as int, all[i].src_index as int, all[i].len as int)
    } by {
        if i < b - a {
            assert(all[i] == left[i]) by {
                assert(m3.subrange(0, b)[a + i] == m3[a + i]);
            }
        } else if i == b - a {
            assert(all[i] == m);
        } else {
            assert(all[i] == right[i - (b - a) - 1]);
        }
    }
    assert forall|i: int, j: int| 0 <= i < j < all.len() implies #[trigger] all[i].dest_index
        + all[i].len <= #[trigger] all[j].dest_index && all[i].src_index + all[i].len
        <= all[j].src_index by {
        if i < b - a {
            assert(all[i] == left[i]) by {
                assert(m3.subrange(0, b)[a + i] == m3[a + i]);
            }
        } else if i == b - a {
            assert(all[i] == m);
        } else {
            assert(all[i] == right[i - (b - a) - 1]);
        }
        if j < b - a {
            assert(all[j] == left[j]) by {
                assert(m3.subrange(0, b)[a + j] == m3[a + j]);
            }
        } else if j == b - a {
            assert(all[j] == m);
        } else {
            assert(all[j] == right[j - (b - a) - 1]);
        }
    }
}

impl Differ {
    /// Where the report span `r` leads from destination row `d` and source
    /// row `s`, if it starts there: a run of matching rows or of replaced
    /// rows moves on in both, added rows in the destination, deleted rows
    /// in the source.
    pub open spec fn span_step(
        &self,
        src: Seq<Vec<String>>,
        dest: Seq<Vec<String>>,
        r: ResultSpan,
        d: int,
        s: int,
    ) -> Option<(int, int)> {
        if r.len <= 0 {
            None
        } else {
            match r.action {
                EditAction::NoChange => if r.dest_index == d && r.src_index == s && self.block_ok(
                    src,
                    dest,
                    d,
                    s,
                    r.len as int,
                ) {
                    Some((d + r.len, s + r.len))
                } else {
                    None
                },
                EditAction::Replace => if r.dest_index == d && r.src_index == s {
                    Some((d + r.len, s + r.len))
                } else {
                    None
                },
                EditAction::AddDest => if r.dest_index == d && r.src_index == -1 {
                    Some((d + r.len, s))
                } else {
                    None
                },
                EditAction::DelSrc => if r.dest_index == -1 && r.src_index == s {
                    Some((d, s + r.len))
                } else {
                    None
                },
            }
        }
    }

    /// Where the spans of `res`, taken in turn, lead from destination row
    /// `d0` and source row `s0`, if each starts where the one before ends.
    pub open spec fn walk(
        &self,
        src: Seq<Vec<String>>,
        dest: Seq<Vec<String>>,
        res: Seq<ResultSpan>,
        d0: int,
        s0: int,
    ) -> Option<(int, int)>
        decreases res.len(),
    {
        if res.len() == 0 {
            Some((d0, s0))
        } else {
            match self.walk(src, dest, res.drop_last(), d0, s0) {
                None => None,
                Some(p) => self.span_step(src, dest, res.last(), p.0, p.1),
            }
        }
    }

    /// Appends the spans that take destination row `dest` to `nextdest`
    /// and source row `src` to `nextsrc`: replaced rows as far as both
    /// go, then added or deleted rows; says whether it added any.
    fn add_changes(
        &self,
        report: &mut Vec<ResultSpan>,
        dest: i32,
        nextdest: i32,
        src: i32,
        nextsrc: i32,
        Ghost(srows): Ghost<Seq<Vec<String>>>,
        Ghost(drows): Ghost<Seq<Vec<String>>>,
        Ghost(k): Ghost<int>,
    ) -> (added: bool)
        requires
            0 <= dest <= nextdest,
            0 <= src <= nextsrc,
            self.walk(srows, drows, old(report)@, k, k) == Some((dest as int, src as int)),
        ensures
            self.walk(srows, drows, final(report)@, k, k) == Some((nextdest as int, nextsrc as int)),
            added == (nextdest > dest || nextsrc > src),
            !added ==> final(report)@ == old(report)@,
            final(report)@.len() >= old(report)@.len(),
            final(report)@.subrange(0, old(report)@.len() as int) == old(report)@,
            added ==> final(report)@.last().action != EditAction::NoChange,
            final(report)@ == old(report)@ + changes(dest, nextdest, src, nextsrc),
            added == (changes(dest, nextdest, src, nextsrc).len() > 0),
    {
        let ghost r0 = report@;
        let mut retval = false;
        let diffdest = nextdest - dest;
        let diffsrc = nextsrc - src;
        if diffdest > 0 {
            if diffsrc > 0 {
                let mindiff = if diffdest < diffsrc {
                    diffdest
                } else {
                    diffsrc
                };
                let x = ResultSpan {
                    action: EditAction::Replace,
                    dest_index: dest,
                    src_index: src,
                    len: mindiff,
                };
                report.push(x);
                assert(report@.drop_last() =~= r0);
                if diffdest > diffsrc {
                    let dest_new = dest + mindiff;
                    let ghost r1 = report@;
                    report.push(
                        ResultSpan {
                            action: EditAction::AddDest,
                            dest_index: dest_new,
                            src_index: -1,
                            len: diffdest - diffsrc,
                        },
                    );
                    assert(report@.drop_last() =~= r1);
                } else if diffsrc > diffdest {
                    let src_new = src + mindiff;
                    let ghost r1 = report@;
                    report.push(
                        ResultSpan {
                            action: EditAction::DelSrc,
                            dest_index: -1,
                            src_index: src_new,
                            len: diffsrc - diffdest,
                        },
                    );
                    assert(report@.drop_last() =~= r1);
                }
            } else {
                report.push(
                    ResultSpan {
                        action: EditAction::AddDest,
                        dest_index: dest,
                        src_index: -1,
                        len: diffdest,
                    },
                );
                assert(report@.drop_last() =~= r0);
            }
            retval = true;
        } else {
            if diffsrc > 0 {
                report.push(
                    ResultSpan { action: EditAction::DelSrc, dest_index: -1, src_index: src, len: diffsrc },
                );
                assert(report@.drop_last() =~= r0);
                retval = true;
            }
        }
        assert(report@.subrange(0, r0.len() as int) =~= r0);
        reveal(changes);
        assert(report@ =~= r0 + changes(dest, nextdest, src, nextsrc));
        retval
    }

    /// Compares the rows of `src` with those of `dest` and reports, in
    /// order, the runs of rows that match, that are replaced, that are
    /// deleted from `src` and that are added from `dest`. A run of matching
    /// rows at the very start is left out of the report.
    pub fn diff(&self, src: &[Vec<String>], dest: &[Vec<String>]) -> (r: Vec<ResultSpan>)
        requires
            src.len() <= i32::MAX,
            dest.len() <= i32::MAX,
        ensures
            self.block_ok(src@, dest@, 0, 0, report_start(r@, dest@.len() as int)),
            self.walk(
                src@,
                dest@,
                r@,
                report_start(r@, dest@.len() as int),
                report_start(r@, dest@.len() as int),
            ) == Some((dest@.len() as int, src@.len() as int)),
            dest@.len() == 0 ==> r@ == (if src@.len() > 0 {
                seq![
                    ResultSpan {
                        action: EditAction::DelSrc,
                        dest_index: -1i32,
                        src_index: 0,
                        len: src@.len() as i32,
                    },
                ]
            } else {
                Seq::<ResultSpan>::empty()
            }),
            dest@.len() > 0 && src@.len() == 0 ==> r@ == seq![
                ResultSpan {
                    action: EditAction::AddDest,
                    dest_index: 0,
                    src_index: -1i32,
                    len: dest@.len() as i32,
                },
            ],
            r@ == self.spec_diff(src@, dest@),
    {
        let dcount = dest.len() as i32;
        let scount = src.len() as i32;
        if dcount == 0 {
            let mut res: Vec<ResultSpan> = Vec::new();
            if scount > 0 {
                res.push(
                    ResultSpan {
                        action: EditAction::DelSrc,
                        dest_index: -1,
                        src_index: 0,
                        len: scount,
                    },
                );
                assert(res@.drop_last() =~= Seq::<ResultSpan>::empty());
                assert(self.walk(src@, dest@, res@.drop_last(), 0, 0) == Some((0int, 0int)));
            }
            return res;
        } else if scount == 0 {
            let mut res: Vec<ResultSpan> = Vec::new();
            res.push(
                ResultSpan { action: EditAction::AddDest, dest_index: 0, src_index: -1, len: dcount },
            );
            assert(res@.drop_last() =~= Seq::<ResultSpan>::empty());
            assert(self.walk(src@, dest@, res@.drop_last(), 0, 0) == Some((0int, 0int)));
            return res;
        }
        let mut states: Vec<State> = Vec::new();
        let mut n: i32 = 0;
        while n < dcount
            invariant
                0 <= n <= dcount,
                dcount == dest@.len(),
                states@.len() == n,
                forall|i: int| 0 <= i < n ==> (#[trigger] states@[i]).len == -2,
                states@ =~= Seq::new(n as nat, |i: int| State { start: -1i32, len: -2i32 }),
            decreases dcount - n,
        {
            states.push(State::new());
            n += 1;
        }
        assert(self.states_ok(src@, dest@, states@));
        let ghost s_init = states@;
        let mut matches: Vec<ResultSpan> = Vec::new();
        self.process_range(src, dest, 0, dcount - 1, 0, scount - 1, &mut matches, &mut states);
        assert(matches@.subrange(0, matches@.len() as int) =~= matches@);
        assert(matches@ =~= self.process(src@, dest@, 0, dcount - 1, 0, scount - 1, s_init).0);
        self.build_report(&matches, dcount, scount, Ghost(src@), Ghost(dest@))
    }

    /// The report built from the runs of matching rows `matches`, found
    /// over all `dcount` destination and `scount` source rows.
    #[verifier::spinoff_prover]
    fn build_report(
        &self,
        matches: &Vec<ResultSpan>,
        dcount: i32,
        scount: i32,
        Ghost(src): Ghost<Seq<Vec<String>>>,
        Ghost(dest): Ghost<Seq<Vec<String>>>,
    ) -> (res: Vec<ResultSpan>)
        requires
            dcount == dest.len(),
            scount == src.len(),
            0 < dcount,
            0 < scount,
            self.chain_in(src, dest, matches@, 0, dcount as int, 0, scount as int),
        ensures
            self.block_ok(src, dest, 0, 0, report_start(res@, dest.len() as int)),
            self.walk(
                src,
                dest,
                res@,
                report_start(res@, dest.len() as int),
                report_start(res@, dest.len() as int),
            ) == Some((dest.len() as int, src.len() as int)),
            res@ == report_from(matches@).0 + changes(
                report_from(matches@).1,
                dcount,
                report_from(matches@).2,
                scount,
            ),
    {
        let ghost ms = matches@;
        let mut res: Vec<ResultSpan> = Vec::new();
        let mut dest_curr: i32 = 0;
        let mut src_curr: i32 = 0;
        let mut last_idx: Option<usize> = None;
        let ghost mut k: int = 0;
        let mut i: usize = 0;
        while i < matches.len()
            invariant
                ms == matches@,
                dcount == dest.len(),
                scount == src.len(),
                0 < dcount,
                0 < scount,
                i <= ms.len(),
                self.chain_in(src, dest, ms, 0, dcount as int, 0, scount as int),
                0 <= dest_curr <= dcount,
                0 <= src_curr <= scount,
                forall|j: int|
                    i <= j < ms.len() ==> dest_curr <= #[trigger] ms[j].dest_index && src_curr
                        <= ms[j].src_index,
                0 <= k,
                self.block_ok(src, dest, 0, 0, k),
                last_idx is None ==> res@.len() == 0 && dest_curr == k && src_curr == k,
                last_idx matches Some(l) ==> (l == res@.len() - 1 && res@[l as int].action
                    == EditAction::NoChange && res@[l as int].dest_index + res@[l as int].len
                    == dest_curr && res@[l as int].src_index + res@[l as int].len == src_curr),
                self.walk(src, dest, res@, k, k) == Some((dest_curr as int, src_curr as int)),
                report_from(ms.take(i as int)) == (res@, dest_curr, src_curr, match last_idx {
                    Some(l) => Some(l as int),
                    None => None::<int>,
                }),
            decreases ms.len() - i,
        {
            proof {
                assert(ms.take(i + 1).drop_last() =~= ms.take(i as int));
                assert(ms.take(i + 1).last() == ms[i as int]);
            }
            let drs = matches[i];
            assert(ms[i as int] == drs);
            let added = self.add_changes(
                &mut res,
                dest_curr,
                drs.dest_index,
                src_curr,
                drs.src_index,
                Ghost(src),
                Ghost(dest),
                Ghost(k),
            );
            if !added {
                match last_idx {
                    Some(l) => {
                        let ghost before = res@;
                        let mut last = res[l];
                        proof {
                            lemma_block_join(
                                *self,
                                src,
                                dest,
                                last.dest_index as int,
                                last.src_index as int,
                                last.len as int,
                                drs.len as int,
                            );
                        }
                        last.len = last.len + drs.len;
                        res.set(l, last);
                        proof {
                            assert(res@.drop_last() =~= before.drop_last());
                        }
                    },
                    None => {
                        proof {
                            lemma_block_join(*self, src, dest, 0, 0, k, drs.len as int);
                            k = k + drs.len;
                        }
                    },
                }
            } else {
                let ghost before = res@;
                res.push(drs);
                assert(res@.drop_last() =~= before);
                last_idx = Some(res.len() - 1);
            }
            dest_curr = drs.dest_index + drs.len;
            src_curr = drs.src_index + drs.len;
            i += 1;
        }
        assert(ms.take(ms.len() as int) =~= ms);
        self.add_changes(&mut res, dest_curr, dcount, src_curr, scount, Ghost(src), Ghost(dest), Ghost(k));
        proof {
            lemma_walk_start(*self, src, dest, res@, k, k);
        }
        res
    }
}

/// The spans that take destination row `dest` to `nextdest` and source
/// row `src` to `nextsrc`: replaced rows as far as both go, then the rows
/// added or deleted.
#[verifier::opaque]
pub open spec fn changes(dest: i32, nextdest: i32, src: i32, nextsrc: i32) -> Seq<ResultSpan> {
    let dd = nextdest - dest;
    let ds = nextsrc - src;
    if dd > 0 {
        if ds > 0 {
            let m = if dd < ds {
                dd
            } else {
                ds
            };
            seq![ResultSpan { action: EditAction::Replace, dest_index: dest, src_index: src, len: m as i32 }]
                + if dd > ds {
                seq![
                    ResultSpan {
                        action: EditAction::AddDest,
                        dest_index: (dest + m) as i32,
                        src_index: -1i32,
                        len: (dd - ds) as i32,
                    },
                ]
            } else if ds > dd {
                seq![
                    ResultSpan {
                        action: EditAction::DelSrc,
                        dest_index: -1i32,
                        src_index: (src + m) as i32,
                        len: (ds - dd) as i32,
                    },
                ]
            } else {
                Seq::<ResultSpan>::empty()
            }
        } else {
            seq![ResultSpan { action: EditAction::AddDest, dest_index: dest, src_index: -1i32, len: dd as i32 }]
        }
    } else if ds > 0 {
        seq![ResultSpan { action: EditAction::DelSrc, dest_index: -1i32, src_index: src, len: ds as i32 }]
    } else {
        Seq::<ResultSpan>::empty()
    }
}

/// The report built from the runs `ms` of matching rows, taken in order:
/// before each run the changes from where the last one ended; a run that
/// follows the last with no change between is joined to the last run
/// reported (or, before any, left out). Gives the report, where the last
/// run ended in the destination and the source, and the place of the last
/// run reported.
pub open spec fn report_from(ms: Seq<ResultSpan>) -> (Seq<ResultSpan>, i32, i32, Option<int>)
    decreases ms.len(),
{
    if ms.len() == 0 {
        (Seq::<ResultSpan>::empty(), 0i32, 0i32, None)
    } else {
        let (res, dc, sc, last) = report_from(ms.drop_last());
        let drs = ms.last();
        let ch = changes(dc, drs.dest_index, sc, drs.src_index);
        let next_d = (drs.dest_index + drs.len) as i32;
        let next_s = (drs.src_index + drs.len) as i32;
        if ch.len() == 0 {
            match last {
                Some(l) => (
                    res.update(
                        l,
                        ResultSpan {
                            action: res[l].action,
                            dest_index: res[l].dest_index,
                            src_index: res[l].src_index,
                            len: (res[l].len + drs.len) as i32,
                        },
                    ),
                    next_d,
                    next_s,
                    last,
                ),
                None => (res, next_d, next_s, None),
            }
        } else {
            let r2 = res + ch;
            (r2.push(drs), next_d, next_s, Some(r2.len() as int))
        }
    }
}

impl Differ {
    /// The report of [`Differ::diff`]: a row list that is empty gives one
    /// span of all rows deleted or added; otherwise the runs that the
    /// search over all rows finds, starting from no state, make the report,
    /// and the changes to the ends of both lists close it.
    pub open spec fn spec_diff(&self, src: Seq<Vec<String>>, dest: Seq<Vec<String>>) -> Seq<ResultSpan> {
        if dest.len() == 0 {
            if src.len() > 0 {
                seq![
                    ResultSpan {
                        action: EditAction::DelSrc,
                        dest_index: -1i32,
                        src_index: 0,
                        len: src.len() as i32,
                    },
                ]
            } else {
                Seq::<ResultSpan>::empty()
            }
        } else if src.len() == 0 {
            seq![
                ResultSpan {
                    action: EditAction::AddDest,
                    dest_index: 0,
                    src_index: -1i32,
                    len: dest.len() as i32,
                },
            ]
        } else {
            let ms = self.process(
                src,
                dest,
                0,
                dest.len() - 1,
                0,
                src.len() - 1,
                Seq::new(dest.len(), |i: int| State { start: -1i32, len: -2i32 }),
            ).0;
            let (res, dc, sc, _) = report_from(ms);
            res + changes(dc, dest.len() as i32, sc, src.len() as i32)
        }
    }
}

/// Where a report begins: the start of its first span, or the end of the
/// rows when it is empty.
pub open spec fn report_start(res: Seq<ResultSpan>, dcount: int) -> int {
    if res.len() == 0 {
        dcount
    } else if res[0].action == EditAction::DelSrc {
        res[0].src_index as int
    } else {
        res[0].dest_index as int
    }
}

/// Two runs of matching rows, one after the other, are one run.
proof fn lemma_block_join(
    d: Differ,
    src: Seq<Vec<String>>,
    dest: Seq<Vec<String>>,
    di: int,
    si: int,
    a: int,
    b: int,
)
    requires
        d.block_ok(src, dest, di, si, a),
        d.block_ok(src, dest, di + a, si + a, b),
    ensures
        d.block_ok(src, dest, di, si, a + b),
{
    assert forall|k: int| 0 <= k < a + b implies !#[trigger] d.rows_differ(
        sview(src[si + k]@),
        sview(dest[di + k]@),
    ) by {
        if k >= a {
            let j = k - a;
            assert(!d.rows_differ(sview(src[si + a + j]@), sview(dest[di + a + j]@)));
            assert(si + a + j == si + k);
            assert(di + a + j == di + k);
        }
    }
}

/// A report that leads from `(d0, s0)` somewhere, and is not empty, starts
/// there.
proof fn lemma_walk_start(
    d: Differ,
    src: Seq<Vec<String>>,
    dest: Seq<Vec<String>>,
    res: Seq<ResultSpan>,
    d0: int,
    s0: int,
)
    requires
        d.walk(src, dest, res, d0, s0) is Some,
    ensures
        res.len() > 0 ==> (if res[0].action == EditAction::DelSrc {
            res[0].src_index == s0
        } else {
            res[0].dest_index == d0
        }),
        res.len() == 0 ==> d.walk(src, dest, res, d0, s0) == Some((d0, s0)),
    decreases res.len(),
{
    if res.len() > 1 {
        lemma_walk_start(d, src, dest, res.drop_last(), d0, s0);
        assert(res.drop_last()[0] == res[0]);
    } else if res.len() == 1 {
        assert(res.drop_last().len() == 0);
        assert(d.walk(src, dest, res.drop_last(), d0, s0) == Some((d0, s0)));
    }
}


/// A span's rows lie inside the rows it speaks of: `slen` source and
/// `dlen` destination rows.
pub open spec fn span_fits(r: ResultSpan, slen: int, dlen: int) -> bool {
    let in_src = 0 <= r.src_index && 0 <= r.len && r.src_index + r.len <= slen;
    let in_dest = 0 <= r.dest_index && 0 <= r.len && r.dest_index + r.len <= dlen;
    match r.action {
        EditAction::NoChange => true,
        EditAction::AddDest => in_dest,
        EditAction::DelSrc => in_src,
        EditAction::Replace => in_src && in_dest,
    }
}

/// A report that leads from `(d0, s0)` to `(d, s)` has its spans inside
/// the rows before `d` and `s`.
proof fn lemma_walk_fits(
    dif: Differ,
    src: Seq<Vec<String>>,
    dest: Seq<Vec<String>>,
    res: Seq<ResultSpan>,
    d0: int,
    s0: int,
)
    requires
        0 <= d0,
        0 <= s0,
        dif.walk(src, dest, res, d0, s0) is Some,
    ensures
        ({
            let p = dif.walk(src, dest, res, d0, s0)->Some_0;
            &&& d0 <= p.0
            &&& s0 <= p.1
            &&& forall|i: int| 0 <= i < res.len() ==> span_fits(#[trigger] res[i], p.1, p.0)
        }),
    decreases res.len(),
{
    if res.len() > 0 {
        let q = res.drop_last();
        lemma_walk_fits(dif, src, dest, q, d0, s0);
        let p = dif.walk(src, dest, res, d0, s0)->Some_0;
        assert forall|i: int| 0 <= i < res.len() implies span_fits(#[trigger] res[i], p.1, p.0) by {
            if i < q.len() {
                assert(res[i] == q[i]);
            }
        }
    }
}

/// A line of the difference report: a row added from the destination, or
/// deleted from the source, and its line number counted from 1.
pub struct DiffLine {
    pub added: bool,
    pub line: usize,
    pub row: Vec<String>,
}

/// A report line as a value.
pub open spec fn line_view(l: DiffLine) -> (bool, int, Seq<Seq<char>>) {
    (l.added, l.line as int, sview(l.row@))
}

/// Report lines as values.
pub open spec fn lines_view(ls: Seq<DiffLine>) -> Seq<(bool, int, Seq<Seq<char>>)> {
    ls.map_values(|l: DiffLine| line_view(l))
}

/// The lines that a span gives: none for matching rows; each added or
/// deleted row; for replaced rows, each source row deleted followed by the
/// destination row added in its place.
pub open spec fn span_lines(r: ResultSpan, src: Seq<Vec<String>>, dest: Seq<Vec<String>>) -> Seq<
    (bool, int, Seq<Seq<char>>),
> {
    let n: nat = if r.len > 0 {
        r.len as nat
    } else {
        0
    };
    let si = r.src_index as int;
    let di = r.dest_index as int;
    match r.action {
        EditAction::NoChange => seq![],
        EditAction::AddDest => Seq::new(n, |i: int| (true, di + i + 1, sview(dest[di + i]@))),
        EditAction::DelSrc => Seq::new(n, |i: int| (false, si + i + 1, sview(src[si + i]@))),
        EditAction::Replace => Seq::new(
            2 * n,
            |k: int|
                if k % 2 == 0 {
                    (false, si + k / 2 + 1, sview(src[si + k / 2]@))
                } else {
                    (true, di + k / 2 + 1, sview(dest[di + k / 2]@))
                },
        ),
    }
}

/// The lines of a report, span after span.
pub open spec fn report_lines(res: Seq<ResultSpan>, src: Seq<Vec<String>>, dest: Seq<Vec<String>>) -> Seq<
    (bool, int, Seq<Seq<char>>),
>
    decreases res.len(),
{
    if res.len() == 0 {
        seq![]
    } else {
        report_lines(res.drop_last(), src, dest) + span_lines(res.last(), src, dest)
    }
}

fn report_line(added: bool, idx: usize, rows: &[Vec<String>]) -> (l: DiffLine)
    requires
        idx < rows.len(),
    ensures
        line_view(l) == (added, idx + 1, sview(rows@[idx as int]@)),
{
    DiffLine { added, line: idx + 1, row: rows[idx].clone() }
}

/// The lines of the report `results` on rows `src` and `dest`.
pub fn diff_lines(results: &Vec<ResultSpan>, src: &[Vec<String>], dest: &[Vec<String>]) -> (out: Vec<DiffLine>)
    requires
        forall|i: int| 0 <= i < results@.len() ==> span_fits(#[trigger] results@[i], src@.len() as int, dest@.len() as int),
    ensures
        lines_view(out@) == report_lines(results@, src@, dest@),
{
    let mut out: Vec<DiffLine> = Vec::new();
    let mut j: usize = 0;
    assert(lines_view(out@) =~= report_lines(results@.take(0), src@, dest@));
    while j < results.len()
        invariant
            j <= results@.len(),
            forall|i: int| 0 <= i < results@.len() ==> span_fits(#[trigger] results@[i], src@.len() as int, dest@.len() as int),
            lines_view(out@) == report_lines(results@.take(j as int), src@, dest@),
        decreases results@.len() - j,
    {
        let rs = results[j];
        assert(span_fits(results@[j as int], src@.len() as int, dest@.len() as int));
        assert(results@.take(j + 1).drop_last() =~= results@.take(j as int));
        let ghost base = lines_view(out@);
        let ghost sl = span_lines(rs, src@, dest@);
        match rs.action {
            EditAction::NoChange => {},
            _ => {
                assert(base + sl.take(0) =~= base);
                let mut i: i32 = 0;
                while i < rs.len
                    invariant
                        0 <= i <= rs.len,
                        span_fits(rs, src@.len() as int, dest@.len() as int),
                        rs.action != EditAction::NoChange,
                        sl == span_lines(rs, src@, dest@),
                        lines_view(out@) == base + sl.take(
                            if rs.action == EditAction::Replace {
                                2 * i
                            } else {
                                i as int
                            },
                        ),
                    decreases rs.len - i,
                {
                    let ghost before = out@;
                    match rs.action {
                        EditAction::AddDest => {
                            let l = report_line(true, rs.dest_index as usize + i as usize, dest);
                            out.push(l);
                            assert(sl.take(i + 1) =~= sl.take(i as int).push(sl[i as int]));
                        },
                        EditAction::DelSrc => {
                            let l = report_line(false, rs.src_index as usize + i as usize, src);
                            out.push(l);
                            assert(sl.take(i + 1) =~= sl.take(i as int).push(sl[i as int]));
                        },
                        _ => {
                            let l1 = report_line(false, rs.src_index as usize + i as usize, src);
                            out.push(l1);
                            let l2 = report_line(true, rs.dest_index as usize + i as usize, dest);
                            out.push(l2);
                            assert((2 * i) / 2 == i as int);
                            assert((2 * i + 1) / 2 == i as int);
                            assert(sl.take(2 * i + 2) =~= sl.take(2 * i).push(sl[2 * i]).push(sl[2 * i + 1]));
                        },
                    }
                    assert(lines_view(out@) =~= lines_view(before) + lines_view(out@.skip(before.len() as int)));
                    i += 1;
                }
            },
        }
        assert(sl.take(sl.len() as int) =~= sl);
        j += 1;
    }
    assert(results@.take(results@.len() as int) =~= results@);
    out
}

impl Differ {
    /// The report of comparing `src` with `dest` as lines, and whether the
    /// report is a single run of matching rows.
    pub fn diff_report(&self, src: &[Vec<String>], dest: &[Vec<String>]) -> (r: (bool, Vec<DiffLine>))
        requires
            src.len() <= i32::MAX,
            dest.len() <= i32::MAX,
        ensures
            r.0 == (self.spec_diff(src@, dest@).len() == 1 && self.spec_diff(src@, dest@)[0].action
                == EditAction::NoChange),
            lines_view(r.1@) == report_lines(self.spec_diff(src@, dest@), src@, dest@),
    {
        let results = self.diff(src, dest);
        proof {
            let k = report_start(results@, dest@.len() as int);
            lemma_walk_fits(*self, src@, dest@, results@, k, k);
        }
        let same = results.len() == 1 && results[0].action == EditAction::NoChange;
        (same, diff_lines(&results, src, dest))
    }
}


proof fn lemma_trim_start_ends(s: Seq<char>)
    ensures
        trim_start_seq(s).len() > 0 ==> !is_ws(trim_start_seq(s)[0]),
    decreases s.len(),
{
    if s.len() > 0 && is_ws(s[0]) {
        lemma_trim_start_ends(s.drop_first());
    }
}

proof fn lemma_trim_end_ends(s: Seq<char>)
    ensures
        trim_end_seq(s).len() > 0 ==> !is_ws(trim_end_seq(s).last()) && trim_end_seq(s)[0] == s[0],
        trim_end_seq(s).len() <= s.len(),
    decreases s.len(),
{
    if s.len() > 0 && is_ws(s.last()) {
        lemma_trim_end_ends(s.drop_last());
    }
}

/// What is trimmed has no whitespace at either end.
proof fn lemma_trimmed(s: Seq<char>)
    ensures
        trim_seq(s).len() > 0 ==> !is_ws(trim_seq(s)[0]) && !is_ws(trim_seq(s).last()),
{
    lemma_trim_start_ends(s);
    lemma_trim_end_ends(trim_start_seq(s));
}

/// With the trim option, whatever the ignore-case option, a field is
/// compared without whitespace at either end; without ignore-case it is
/// compared as the field itself trimmed, so two fields equal once trimmed
/// never make rows differ.
pub proof fn lemma_trim_norm(d: Differ, a: Seq<char>, b: Seq<char>)
    requires
        d.trim,
    ensures
        d.norm(a).len() > 0 ==> !is_ws(d.norm(a)[0]) && !is_ws(d.norm(a).last()),
        !d.ignore_case ==> d.norm(a) == trim_seq(a),
        !d.ignore_case && trim_seq(a) == trim_seq(b) ==> !d.fields_differ(a, b),
{
    let u = if d.ignore_case {
        upper_text(a)
    } else {
        a
    };
    lemma_trimmed(u);
}


/// The ASCII upper case of each character.
spec fn upper_each(s: Seq<char>) -> Seq<char> {
    s.map_values(|c: char| crate::rowops::ascii_upper(c))
}

proof fn lemma_upper_keeps_ws(c: char)
    ensures
        is_ws(crate::rowops::ascii_upper(c)) == is_ws(c),
{
}

proof fn lemma_upper_trim_start(s: Seq<char>)
    ensures
        trim_start_seq(upper_each(s)) == upper_each(trim_start_seq(s)),
    decreases s.len(),
{
    if s.len() > 0 {
        lemma_upper_keeps_ws(s[0]);
        assert(upper_each(s)[0] == crate::rowops::ascii_upper(s[0]));
        assert(upper_each(s).drop_first() =~= upper_each(s.drop_first()));
        lemma_upper_trim_start(s.drop_first());
    } else {
        assert(upper_each(s) =~= s);
    }
}

proof fn lemma_upper_trim_end(s: Seq<char>)
    ensures
        trim_end_seq(upper_each(s)) == upper_each(trim_end_seq(s)),
    decreases s.len(),
{
    if s.len() > 0 {
        lemma_upper_keeps_ws(s.last());
        assert(upper_each(s).last() == crate::rowops::ascii_upper(s.last()));
        assert(upper_each(s).drop_last() =~= upper_each(s.drop_last()));
        lemma_upper_trim_end(s.drop_last());
    } else {
        assert(upper_each(s) =~= s);
    }
}

/// With the trim and ignore-case options, two ASCII fields equal once
/// trimmed never make rows differ.
pub proof fn lemma_trim_ignore_case(d: Differ, a: Seq<char>, b: Seq<char>)
    requires
        d.trim,
        d.ignore_case,
        all_ascii(a),
        all_ascii(b),
        trim_seq(a) == trim_seq(b),
    ensures
        !d.fields_differ(a, b),
{
    lemma_upper_trim_start(a);
    lemma_upper_trim_end(trim_start_seq(a));
    lemma_upper_trim_start(b);
    lemma_upper_trim_end(trim_start_seq(b));
    assert(upper_text(a) == upper_each(a));
    assert(upper_text(b) == upper_each(b));
}

} // verus!
