//! A cursor over the identifiers of the candles of one instrument at one
//! granularity, page by page, which counts buckets without walking them.

use crate::bid_ask_candle::BidAskCandle;
use crate::calendar::{valid_instant, MAX_INSTANT, MIN_INSTANT};
use crate::candle_index::identifier;
use crate::candle_interval::{
    lemma_end_before_later_start, lemma_end_is_start, lemma_next_start, lemma_span_step,
    lemma_start_idempotent, lemma_start_monotonic, CandleInterval,
};
use crate::text::{decimal, decimal_string, parse_decimal, read_decimal};
use vstd::prelude::*;

verus! {

/// What a pager holds, as plain values.
pub struct PagerState {
    pub instrument: Seq<char>,
    pub interval: CandleInterval,
    /// Where the enumeration stands.
    pub from: int,
    /// Where it ends.
    pub to: int,
    /// The instant of the continuation cursor, if the pager was given one.
    pub cursor: Option<int>,
    /// How many identifiers a page holds at most.
    pub limit: nat,
    /// How many identifiers have been handed out one by one.
    pub emitted: nat,
}

impl PagerState {
    /// How many buckets the range holds, the one of `to` included.
    pub open spec fn total(self) -> int {
        self.interval.count_between(self.from, self.to)
    }

    /// The instant just after the current page.
    pub open spec fn after_page(self) -> int {
        let duration = self.interval.duration_of(self.from);
        self.from + duration * (self.limit - self.emitted) + duration
    }

    /// Where the next page begins, if there is one.
    pub open spec fn next_page(self) -> Option<int> {
        if self.limit >= self.total() || self.after_page() > self.to {
            None
        } else {
            Some(self.after_page())
        }
    }

    /// The state with which a step works: before anything was handed out,
    /// `from` is moved to the start of its bucket and `to` to the end of its
    /// bucket.
    pub open spec fn normalized(self) -> PagerState {
        if self.emitted == 0 {
            PagerState {
                from: self.interval.start_of(self.from),
                to: self.interval.end_of(self.to),
                ..self
            }
        } else {
            self
        }
    }

    /// The instant whose bucket a step would hand out: the cursor where
    /// there is one.
    pub open spec fn position(self) -> int {
        match self.cursor {
            Some(c) => c,
            None => self.normalized().from,
        }
    }

    /// Whether a step hands out an identifier.
    pub open spec fn emits(self) -> bool {
        self.emitted < self.limit && self.position() < self.normalized().to
    }

    /// The identifier that a step hands out.
    pub open spec fn emitted_id(self) -> Seq<char> {
        identifier(self.interval, self.instrument, self.interval.start_of(self.position()))
    }

    /// The state after a step.
    pub open spec fn after_step(self) -> PagerState {
        if self.emitted >= self.limit {
            self
        } else if !self.emits() {
            PagerState { from: self.position(), ..self.normalized() }
        } else {
            PagerState {
                from: self.position() + self.interval.duration_of(self.position()),
                emitted: self.emitted + 1,
                ..self.normalized()
            }
        }
    }

    /// Whether the instants that a step computes are instants.
    pub open spec fn step_in_range(self) -> bool {
        self.emitted < self.limit ==> {
            &&& self.emitted == 0 ==> self.interval.covers_whole(self.to)
            &&& self.emits() ==> valid_instant(
                self.position() + self.interval.duration_of(self.position()),
            )
        }
    }
}

/// The identifiers of at most `n` buckets in a row, from the bucket of `from`
/// on, as long as the walk has not reached `to`.
pub open spec fn identifiers_from(
    interval: CandleInterval,
    instrument: Seq<char>,
    from: int,
    to: int,
    n: nat,
) -> Seq<Seq<char>>
    decreases n,
{
    if n == 0 || from >= to {
        Seq::empty()
    } else {
        seq![identifier(interval, instrument, interval.start_of(from))] + identifiers_from(
            interval,
            instrument,
            from + interval.duration_of(from),
            to,
            (n - 1) as nat,
        )
    }
}

impl PagerState {
    /// The identifiers of the current page.
    pub open spec fn page_ids(self) -> Seq<Seq<char>> {
        if self.emitted >= self.limit {
            Seq::empty()
        } else {
            let from = match self.cursor {
                Some(c) => c,
                None => self.interval.start_of(self.from),
            };
            let to = self.interval.end_of(self.to);
            let count = self.interval.count_between(self.from, to);
            let n = if self.limit > count {
                count
            } else {
                self.limit as int
            };
            identifiers_from(self.interval, self.instrument, from, to, n as nat)
        }
    }

    /// Whether the instants that a page computes are instants, and the count
    /// of its buckets is a length.
    pub open spec fn page_in_range(self) -> bool {
        let to = self.interval.end_of(self.to);
        self.emitted < self.limit ==> {
            &&& self.interval.covers_whole(self.to)
            &&& self.interval.covers_whole(to)
            &&& self.interval.start_of(self.from) <= self.interval.end_of(to)
            &&& self.interval.count_between(self.from, to) <= usize::MAX
        }
    }

    /// Whether the instants that the count of the range computes are
    /// instants, and the count is a length.
    pub open spec fn total_in_range(self) -> bool {
        &&& self.interval.covers_whole(self.to)
        &&& self.interval.start_of(self.from) <= self.interval.end_of(self.to)
        &&& self.total() <= usize::MAX
    }

    /// Whether the instants that the search for the next page computes are
    /// instants, and the count of the range is a length.
    pub open spec fn next_page_in_range(self) -> bool {
        &&& self.total_in_range()
        &&& self.interval.end_of(self.from) <= MAX_INSTANT
    }
}

/// Whether `count` is a length.
pub fn fits_length(count: i64) -> (fits: bool)
    ensures
        fits == (0 <= count <= usize::MAX),
{
    count >= 0 && count as u128 <= usize::MAX as u128
}

/// The texts of a run of strings.
pub open spec fn texts_of(strings: Seq<String>) -> Seq<Seq<char>> {
    strings.map_values(|text: String| text@)
}

/// The instant that a cursor stands for: `None` where there is no cursor, or
/// where its text is no number.
pub open spec fn cursor_instant(page_id: Option<String>) -> Option<int> {
    match page_id {
        Some(text) => parse_decimal(text@),
        None => None,
    }
}

/// A cursor over the candle identifiers of one instrument at one interval.
#[derive(Debug)]
pub struct CandlePager {
    instrument: String,
    candle_type: CandleInterval,
    from_date: i64,
    to_date: i64,
    page_id: Option<String>,
    limit: usize,
    last_item_no: usize,
}

impl View for CandlePager {
    type V = PagerState;

    closed spec fn view(&self) -> PagerState {
        PagerState {
            instrument: self.instrument@,
            interval: self.candle_type,
            from: self.from_date as int,
            to: self.to_date as int,
            cursor: cursor_instant(self.page_id),
            limit: self.limit as nat,
            emitted: self.last_item_no as nat,
        }
    }
}

impl CandlePager {
    /// What holds of every pager: it has handed out no more than a page, its
    /// range lies among the instants, its end is a bucket start, and its
    /// cursor, if it has one, is an instant.
    pub closed spec fn wf(&self) -> bool {
        &&& self.last_item_no <= self.limit
        &&& self.candle_type.covers(self.from_date as int)
        &&& valid_instant(self.to_date as int)
        &&& self.candle_type.is_start(self.to_date as int)
        &&& self.page_id matches Some(text) ==> {
            &&& parse_decimal(text@) matches Some(c)
            &&& self.candle_type.covers(c)
        }
    }

    /// What `wf` says, over the view.
    pub proof fn lemma_wf(&self)
        requires
            self.wf(),
        ensures
            self@.emitted <= self@.limit <= usize::MAX,
            self@.interval.covers(self@.from),
            valid_instant(self@.to),
            self@.interval.is_start(self@.to),
            self@.cursor matches Some(c) ==> self@.interval.covers(c),
    {
    }

    /// A pager over the buckets from the one that holds `from_date` to the
    /// one that holds `to_date`.
    pub fn new(
        instrument: String,
        candle_type: CandleInterval,
        from_date: i64,
        to_date: i64,
        page_id: Option<String>,
        limit: usize,
    ) -> (pager: CandlePager)
        requires
            candle_type.covers(from_date as int),
            candle_type.covers(to_date as int),
            candle_type.start_of(from_date as int) <= candle_type.start_of(to_date as int),
            page_id matches Some(text) ==> {
                &&& parse_decimal(text@) matches Some(c)
                &&& candle_type.covers(c)
            },
        ensures
            pager.wf(),
            pager@ == (PagerState {
                instrument: instrument@,
                interval: candle_type,
                from: candle_type.start_of(from_date as int),
                to: candle_type.start_of(to_date as int),
                cursor: cursor_instant(page_id),
                limit: limit as nat,
                emitted: 0,
            }),
    {
        proof {
            lemma_start_idempotent(candle_type, from_date as int);
            lemma_start_idempotent(candle_type, to_date as int);
        }
        let from_date: i64 = candle_type.get_start_date(from_date);
        let to_date: i64 = candle_type.get_start_date(to_date);
        CandlePager {
            instrument,
            candle_type,
            from_date,
            to_date,
            page_id,
            limit,
            last_item_no: 0,
        }
    }

    /// A pager over the buckets from the one that holds `from_date` to the
    /// one that holds `to_date`, or none where `new` cannot make one: where
    /// an instant lies out of range, the range runs backwards, or the cursor
    /// is no instant.
    pub fn try_new(
        instrument: String,
        candle_type: CandleInterval,
        from_date: i64,
        to_date: i64,
        page_id: Option<String>,
        limit: usize,
    ) -> (made: Option<CandlePager>)
        ensures
            made is Some <==> {
                &&& candle_type.covers(from_date as int)
                &&& candle_type.covers(to_date as int)
                &&& candle_type.start_of(from_date as int) <= candle_type.start_of(to_date as int)
                &&& page_id matches Some(text) ==> {
                    &&& parse_decimal(text@) matches Some(c)
                    &&& candle_type.covers(c)
                }
            },
            made matches Some(pager) ==> pager.wf() && pager@ == (PagerState {
                instrument: instrument@,
                interval: candle_type,
                from: candle_type.start_of(from_date as int),
                to: candle_type.start_of(to_date as int),
                cursor: cursor_instant(page_id),
                limit: limit as nat,
                emitted: 0,
            }),
    {
        if !candle_type.covers_date(from_date) || !candle_type.covers_date(to_date) {
            return None;
        }
        if candle_type.get_start_date(from_date) > candle_type.get_start_date(to_date) {
            return None;
        }
        let cursor_fits: bool = match &page_id {
            Some(text) => match read_decimal(text.as_str()) {
                Some(c) => candle_type.covers_date(c),
                None => false,
            },
            None => true,
        };
        if !cursor_fits {
            return None;
        }
        Some(CandlePager::new(instrument, candle_type, from_date, to_date, page_id, limit))
    }

    /// The instrument whose candles the pager walks.
    pub fn get_instrument(&self) -> (instrument: &str)
        ensures
            instrument@ == self@.instrument,
    {
        self.instrument.as_str()
    }

    /// How many identifiers a page holds at most.
    pub fn get_limit(&self) -> (limit: usize)
        ensures
            limit == self@.limit,
    {
        self.limit
    }

    /// How many identifiers have been handed out one by one.
    pub fn get_last_item_no(&self) -> (emitted: usize)
        ensures
            emitted == self@.emitted,
    {
        self.last_item_no
    }

    /// Whether the range can be counted: whether `total_bucket_count` can
    /// be called.
    pub fn can_count(&self) -> (ok: bool)
        requires
            self.wf(),
        ensures
            ok == self@.total_in_range(),
    {
        if !self.candle_type.covers_whole_date(self.to_date) {
            return false;
        }
        let first: i64 = self.candle_type.get_start_date(self.from_date);
        let end: i64 = self.candle_type.get_end_date(self.to_date);
        proof {
            lemma_start_idempotent(self.candle_type, self.from_date as int);
            lemma_end_is_start(self.candle_type, self.to_date as int);
            lemma_span_step(self.candle_type, first as int, end as int);
        }
        first <= end && fits_length(
            self.candle_type.count_dates(self.from_date, self.to_date),
        )
    }

    /// Whether the next page can be looked for: whether `get_next_page_id`
    /// and `move_page_id` can be called.
    pub fn can_turn_page(&self) -> (ok: bool)
        requires
            self.wf(),
        ensures
            ok == self@.next_page_in_range(),
    {
        self.can_count() && self.candle_type.covers_whole_date(self.from_date)
    }

    /// Whether a step can be taken: whether `move_candle_id` can be called.
    pub fn can_step(&self) -> (ok: bool)
        requires
            self.wf(),
        ensures
            ok == self@.step_in_range(),
    {
        if self.last_item_no >= self.limit {
            return true;
        }
        let mut from_date: i64 = self.from_date;
        let mut to_date: i64 = self.to_date;
        if self.last_item_no == 0 {
            if !self.candle_type.covers_whole_date(self.to_date) {
                return false;
            }
            proof {
                lemma_start_idempotent(self.candle_type, self.from_date as int);
                lemma_end_is_start(self.candle_type, self.to_date as int);
            }
            from_date = self.candle_type.get_start_date(self.from_date);
            to_date = self.candle_type.get_end_date(self.to_date);
        }
        match &self.page_id {
            Some(page_id) => {
                match read_decimal(page_id.as_str()) {
                    Some(c) => {
                        from_date = c;
                    },
                    None => {},
                }
            },
            None => {},
        }
        if from_date >= to_date {
            return true;
        }
        if self.candle_type == CandleInterval::Infinity {
            return false;
        }
        proof {
            lemma_end_before_later_start(self.candle_type, from_date as int, to_date as int);
            lemma_end_is_start(self.candle_type, from_date as int);
        }
        from_date <= MAX_INSTANT - self.candle_type.get_duration(from_date)
    }

    /// Whether the page can be listed: whether `get_page_candle_ids` can be
    /// called.
    pub fn can_list_page(&self) -> (ok: bool)
        requires
            self.wf(),
        ensures
            ok == self@.page_in_range(),
    {
        if self.last_item_no >= self.limit {
            return true;
        }
        if !self.candle_type.covers_whole_date(self.to_date) {
            return false;
        }
        let to_date: i64 = self.candle_type.get_end_date(self.to_date);
        proof {
            lemma_end_is_start(self.candle_type, self.to_date as int);
        }
        if !self.candle_type.covers_whole_date(to_date) {
            return false;
        }
        let first: i64 = self.candle_type.get_start_date(self.from_date);
        let end: i64 = self.candle_type.get_end_date(to_date);
        proof {
            lemma_start_idempotent(self.candle_type, self.from_date as int);
            lemma_end_is_start(self.candle_type, to_date as int);
            lemma_span_step(self.candle_type, first as int, end as int);
        }
        first <= end && fits_length(self.candle_type.count_dates(self.from_date, to_date))
    }

    /// How many buckets the range holds.
    pub fn total_bucket_count(&self) -> (total: usize)
        requires
            self.wf(),
            self@.total_in_range(),
        ensures
            total == self@.total(),
    {
        self.candle_type.get_dates_count(self.from_date, self.to_date)
    }

    /// Where the next page begins, if there is one.
    fn next_page_instant(&self) -> (next: Option<i64>)
        requires
            self.wf(),
            self@.next_page_in_range(),
        ensures
            match next {
                Some(t) => self@.next_page() == Some(t as int) && self@.from < t <= self@.to,
                None => self@.next_page() is None,
            },
    {
        let total_items_count: usize = self.candle_type.get_dates_count(
            self.from_date,
            self.to_date,
        );
        if self.limit >= total_items_count {
            return None;
        }
        let remaining_item_count: usize = self.limit - self.last_item_no;
        let candle_duration: i64 = self.candle_type.get_duration(self.from_date);
        assert(0 <= candle_duration * remaining_item_count <= 0x7fff_ffff_ffff_ffff
            * 0xffff_ffff_ffff_ffff) by (nonlinear_arith)
            requires
                0 < candle_duration <= 0x7fff_ffff_ffff_ffff,
                0 <= remaining_item_count <= 0xffff_ffff_ffff_ffff,
        ;
        let total_duration: i128 = candle_duration as i128 * remaining_item_count as i128;
        let from_date: i128 = self.from_date as i128 + total_duration + candle_duration as i128;
        if from_date > self.to_date as i128 {
            return None;
        }
        Some(from_date as i64)
    }

    /// The cursor of the next page, if there is one: the instant just after
    /// the current page, in decimal.
    pub fn get_next_page_id(&self) -> (page_id: Option<String>)
        requires
            self.wf(),
            self@.next_page_in_range(),
        ensures
            match self@.next_page() {
                Some(t) => page_id matches Some(text) && text@ == decimal(t),
                None => page_id is None,
            },
    {
        match self.next_page_instant() {
            Some(t) => Some(decimal_string(t)),
            None => None,
        }
    }

    /// Moves the pager to the next page, if there is one, and gives its
    /// cursor.
    pub fn move_page_id(&mut self) -> (page_id: Option<String>)
        requires
            old(self).wf(),
            old(self)@.next_page_in_range(),
        ensures
            final(self).wf(),
            match old(self)@.next_page() {
                Some(t) => {
                    &&& page_id matches Some(text) && text@ == decimal(t)
                    &&& final(self)@ == (PagerState { from: t, ..old(self)@ })
                },
                None => page_id is None && final(self)@ == old(self)@,
            },
    {
        match self.next_page_instant() {
            Some(t) => {
                proof {
                    lemma_start_monotonic(self.candle_type, self.from_date as int, t as int);
                    lemma_end_is_start(self.candle_type, t as int);
                }
                self.from_date = t;
                Some(decimal_string(t))
            },
            None => None,
        }
    }

    /// Hands out the identifier of the next bucket, if the page is not full
    /// and the range not at its end.
    pub fn move_candle_id(&mut self) -> (id: Option<String>)
        requires
            old(self).wf(),
            old(self)@.step_in_range(),
        ensures
            final(self).wf(),
            final(self)@ == old(self)@.after_step(),
            match id {
                Some(text) => old(self)@.emits() && text@ == old(self)@.emitted_id(),
                None => !old(self)@.emits(),
            },
    {
        if self.last_item_no >= self.limit {
            return None;
        }
        if self.last_item_no == 0 {
            proof {
                lemma_start_idempotent(self.candle_type, self.from_date as int);
                lemma_end_is_start(self.candle_type, self.to_date as int);
            }
            self.from_date = self.candle_type.get_start_date(self.from_date);
            self.to_date = self.candle_type.get_end_date(self.to_date);
        }
        match &self.page_id {
            Some(page_id) => {
                match read_decimal(page_id.as_str()) {
                    Some(c) => {
                        self.from_date = c;
                    },
                    None => {},
                }
            },
            None => {},
        }
        if self.from_date >= self.to_date {
            return None;
        }
        proof {
            assert(self.candle_type != CandleInterval::Infinity);
            lemma_end_before_later_start(
                self.candle_type,
                self.from_date as int,
                self.to_date as int,
            );
            lemma_end_is_start(self.candle_type, self.from_date as int);
        }
        let id = BidAskCandle::generate_id(
            self.instrument.as_str(),
            &self.candle_type,
            self.from_date,
        );
        let next: i64 = self.from_date + self.candle_type.get_duration(self.from_date);
        proof {
            lemma_start_monotonic(self.candle_type, self.from_date as int, next as int);
            lemma_end_is_start(self.candle_type, next as int);
        }
        self.last_item_no += 1;
        self.from_date = next;
        Some(id)
    }

    /// The identifiers of the current page, in order.
    pub fn get_page_candle_ids(&self) -> (ids: Vec<String>)
        requires
            self.wf(),
            self@.page_in_range(),
        ensures
            texts_of(ids@) == self@.page_ids(),
    {
        if self.last_item_no >= self.limit {
            return Vec::new();
        }
        let mut from_date: i64 = self.candle_type.get_start_date(self.from_date);
        proof {
            lemma_start_idempotent(self.candle_type, self.from_date as int);
        }
        match &self.page_id {
            Some(page_id) => {
                match read_decimal(page_id.as_str()) {
                    Some(c) => {
                        from_date = c;
                    },
                    None => {},
                }
            },
            None => {},
        }
        let to_date: i64 = self.candle_type.get_end_date(self.to_date);
        proof {
            lemma_end_is_start(self.candle_type, self.to_date as int);
        }
        let dates_count: usize = self.candle_type.get_dates_count(self.from_date, to_date);
        let limit: usize = if self.limit > dates_count {
            dates_count
        } else {
            self.limit
        };
        let mut ids: Vec<String> = Vec::with_capacity(limit);
        let mut i: usize = 0;
        let ghost interval = self.candle_type;
        let ghost instrument = self.instrument@;
        assert(texts_of(ids@) =~= Seq::<Seq<char>>::empty());
        while i < limit
            invariant
                i <= limit,
                interval == self.candle_type,
                instrument == self.instrument@,
                interval != CandleInterval::Infinity,
                MIN_INSTANT <= interval.start_of(from_date as int),
                valid_instant(to_date as int),
                interval.is_start(to_date as int),
                texts_of(ids@) + identifiers_from(
                    interval,
                    instrument,
                    from_date as int,
                    to_date as int,
                    (limit - i) as nat,
                ) == self@.page_ids(),
            decreases limit - i,
        {
            if from_date >= to_date {
                assert(texts_of(ids@) + Seq::<Seq<char>>::empty() =~= texts_of(ids@));
                return ids;
            }
            proof {
                lemma_end_before_later_start(interval, from_date as int, to_date as int);
                lemma_end_is_start(interval, from_date as int);
            }
            let id = BidAskCandle::generate_id(
                self.instrument.as_str(),
                &self.candle_type,
                from_date,
            );
            let ghost before = ids@;
            let ghost rest = identifiers_from(
                interval,
                instrument,
                from_date + interval.duration_of(from_date as int),
                to_date as int,
                (limit - i - 1) as nat,
            );
            ids.push(id);
            assert(texts_of(ids@) + rest =~= texts_of(before) + (seq![id@] + rest));
            let next: i64 = from_date + self.candle_type.get_duration(from_date);
            proof {
                lemma_start_monotonic(interval, from_date as int, next as int);
                lemma_end_is_start(interval, next as int);
            }
            from_date = next;
            i = i + 1;
        }
        assert(texts_of(ids@) + Seq::<Seq<char>>::empty() =~= texts_of(ids@));
        ids
    }
}

impl PagerState {
    /// Whether the state is as `CandlePager::new` leaves a pager that was
    /// given no cursor, at an interval with buckets to walk.
    pub open spec fn fresh(self) -> bool {
        &&& self.emitted == 0
        &&& self.cursor is None
        &&& self.interval != CandleInterval::Infinity
        &&& self.interval.is_start(self.from)
        &&& self.interval.is_start(self.to)
        &&& self.from <= self.to
    }

    /// The identifiers that step after step hands out, until a step hands
    /// out none.
    pub open spec fn drained(self) -> Seq<Seq<char>>
        decreases self.limit - self.emitted,
    {
        if !self.emits() {
            Seq::empty()
        } else {
            seq![self.emitted_id()] + self.after_step().drained()
        }
    }
}

/// The smaller of `n` and `count`, and no less than none.
pub open spec fn capped(n: nat, count: int) -> nat {
    if count <= 0 {
        0
    } else if n <= count {
        n
    } else {
        count as nat
    }
}

/// A walk from one bucket start towards another hands out as many
/// identifiers as buckets lie between them, or as many as it was allowed:
/// to allow more than there are buckets changes nothing.
pub proof fn lemma_identifiers_from(
    interval: CandleInterval,
    instrument: Seq<char>,
    from: int,
    to: int,
    n: nat,
)
    requires
        interval != CandleInterval::Infinity,
        interval.is_start(from),
        interval.is_start(to),
    ensures
        identifiers_from(interval, instrument, from, to, n).len() == capped(
            n,
            interval.span_count(from, to),
        ),
        identifiers_from(interval, instrument, from, to, n) == identifiers_from(
            interval,
            instrument,
            from,
            to,
            capped(n, interval.span_count(from, to)),
        ),
    decreases n,
{
    lemma_span_step(interval, from, to);
    lemma_end_is_start(interval, from);
    let count = interval.span_count(from, to);
    if n == 0 || from >= to {
    } else {
        let next = from + interval.duration_of(from);
        lemma_identifiers_from(interval, instrument, next, to, (n - 1) as nat);
        assert(capped((n - 1) as nat, count - 1) == capped(n, count) - 1);
    }
}

/// A pager that was given no cursor has as many identifiers on its page as
/// its range has buckets, or as many as its limit allows: where the limit is
/// no less than the count of the range, the page has that count.
pub proof fn lemma_page_holds_total(state: PagerState)
    requires
        state.fresh(),
    ensures
        state.total() >= 1,
        state.page_ids().len() == capped(state.limit, state.total()),
        state.limit >= state.total() ==> state.page_ids().len() == state.total(),
{
    let interval = state.interval;
    let end = interval.end_of(state.to);
    lemma_end_is_start(interval, state.to);
    lemma_span_step(interval, state.from, state.to);
    lemma_span_step(interval, state.from, end);
    lemma_span_step(interval, state.to, state.to);
    lemma_next_start(interval, state.to, end);
    if state.limit > 0 {
        let count = interval.count_between(state.from, end);
        let n = if state.limit > count {
            count
        } else {
            state.limit as int
        };
        lemma_identifiers_from(interval, state.instrument, state.from, end, n as nat);
    }
}

/// Once something was handed out, the steps of a pager without a cursor
/// walk the buckets from where it stands.
proof fn lemma_drained_walks(state: PagerState)
    requires
        1 <= state.emitted <= state.limit,
        state.cursor is None,
        state.interval != CandleInterval::Infinity,
        state.interval.is_start(state.from),
        state.interval.is_start(state.to),
    ensures
        state.drained() == identifiers_from(
            state.interval,
            state.instrument,
            state.from,
            state.to,
            (state.limit - state.emitted) as nat,
        ),
    decreases state.limit - state.emitted,
{
    if state.emits() {
        lemma_end_is_start(state.interval, state.from);
        lemma_drained_walks(state.after_step());
    }
}

/// To take the identifiers of a pager one by one until none comes gives the
/// identifiers of its page, in the same order, where the pager was given no
/// cursor.
pub proof fn lemma_drained_is_page(state: PagerState)
    requires
        state.fresh(),
    ensures
        state.drained() == state.page_ids(),
{
    let interval = state.interval;
    let end = interval.end_of(state.to);
    lemma_end_is_start(interval, state.to);
    lemma_span_step(interval, state.from, state.to);
    lemma_span_step(interval, state.from, end);
    lemma_next_start(interval, state.to, end);
    if state.limit > 0 {
        lemma_end_is_start(interval, state.from);
        assert(state.emits());
        lemma_drained_walks(state.after_step());
        let count = interval.count_between(state.from, end);
        let n = if state.limit > count {
            count
        } else {
            state.limit as int
        };
        lemma_identifiers_from(interval, state.instrument, state.from, end, n as nat);
        lemma_identifiers_from(interval, state.instrument, state.from, end, state.limit);
        assert(state.drained() == identifiers_from(
            interval,
            state.instrument,
            state.from,
            end,
            state.limit,
        ));
    }
}

} // verus!
