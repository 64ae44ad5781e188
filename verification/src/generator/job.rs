//! One request: its sequence, its place in the cache, and what was shown of its text.
use vstd::prelude::*;
use vstd::utf8::encode_utf8;
use crate::filter::state::{effect, fed, filterings, Filtering, FilterState, Fj};
use crate::generator::emission::{
    find_stop, first_stop, head, held_back, hold_back, lemma_bytes_concat, show, shown, strip, stripped, texts_bytes,
};
use crate::arith::{divide, quotient};
use crate::loop_detect::{loops, period_cap, watched, window_of, LoopDetector, Watching};
use crate::paged::{page_count, pages_for};
use crate::text::{decimal, push_decimal, push_text, string_of};
use std::collections::HashSet;

verus! {

broadcast use vstd::std_specs::hash::group_hash_axioms;

/// How a multimodal generation ended.
#[derive(Clone, Copy, Debug, PartialEq, Eq, Structural)]
pub enum MmFinish {
    /// At a stop token or a stop string.
    Stop,
    /// At the greatest number of new tokens.
    Length,
    /// By the request's cancel flag.
    Cancelled,
}

/// What a stream event reports.
#[derive(Clone, Copy, Debug, PartialEq, Eq, Structural)]
pub enum Stage {
    Started,
    Prefill { done: i64, total: i64 },
    Streaming,
}

/// Why a job ended.
#[derive(Clone, Copy, Debug, PartialEq, Eq, Structural)]
pub enum EosReason {
    StopString,
    StopToken,
    MaxNewTokens,
    LoopDetected,
    FilterCompleted,
    Cancelled,
    /// It needs so many pages, and the pool has so many.
    TooLarge { need: i64, pool: i64 },
}

/// A signed number in decimal.
pub open spec fn signed(n: int) -> Seq<char> {
    if n < 0 {
        seq!['-'] + decimal((-n) as nat)
    } else {
        decimal(n as nat)
    }
}

fn push_signed(out: &mut Vec<char>, n: i128)
    requires
        n > i128::MIN,
        -n <= usize::MAX,
        n <= usize::MAX,
    ensures
        final(out)@ == old(out)@ + signed(n as int),
{
    let ghost before = out@;
    if n < 0 {
        out.push('-');
        push_decimal(out, (-n) as usize);
        assert(out@ =~= before + (seq!['-'] + decimal((-n) as nat)));
    } else {
        push_decimal(out, n as usize);
    }
}

/// What a caller is told of why a job ended.
pub open spec fn reason_text(r: EosReason) -> Seq<char> {
    match r {
        EosReason::StopString => "stop_string"@,
        EosReason::StopToken => "stop_token"@,
        EosReason::MaxNewTokens => "max_new_tokens"@,
        EosReason::LoopDetected => "loop_detected"@,
        EosReason::FilterCompleted => "filter_completed"@,
        EosReason::Cancelled => "cancelled"@,
        EosReason::TooLarge { need, pool } => "prompt + max_new needs "@ + signed(need * 256)
            + " tokens but the KV pool holds "@ + signed(pool * 256)
            + "                      (raise VRAM or lower cache_size / max_tokens)"@,
    }
}

impl EosReason {
    /// What a caller is told.
    pub fn text(&self) -> (r: String)
        requires
            self matches EosReason::TooLarge { need, pool } ==> -usize::MAX <= need * 256 <= usize::MAX && -usize::MAX
                <= pool * 256 <= usize::MAX,
        ensures
            r@ == reason_text(*self),
    {
        match self {
            EosReason::StopString => "stop_string".to_owned(),
            EosReason::StopToken => "stop_token".to_owned(),
            EosReason::MaxNewTokens => "max_new_tokens".to_owned(),
            EosReason::LoopDetected => "loop_detected".to_owned(),
            EosReason::FilterCompleted => "filter_completed".to_owned(),
            EosReason::Cancelled => "cancelled".to_owned(),
            EosReason::TooLarge { need, pool } => {
                let mut out: Vec<char> = Vec::new();
                push_text(&mut out, "prompt + max_new needs ");
                push_signed(&mut out, *need as i128 * 256);
                push_text(&mut out, " tokens but the KV pool holds ");
                push_signed(&mut out, *pool as i128 * 256);
                push_text(&mut out, "                      (raise VRAM or lower cache_size / max_tokens)");
                assert(out@ =~= reason_text(*self));
                string_of(&out)
            },
        }
    }
}

/// One result of a round.
pub struct StreamEvent {
    pub serial: u64,
    pub stage: Stage,
    /// Text that can be shown since the last event.
    pub text: String,
    pub token: Option<i64>,
    pub eos: bool,
    pub eos_reason: Option<EosReason>,
    /// The whole text, with the last event.
    pub full_text: Option<String>,
    pub new_tokens: usize,
}

/// A stream event, its texts as bytes.
#[verifier::ext_equal]
pub struct Told {
    pub serial: u64,
    pub stage: Stage,
    pub text: Seq<u8>,
    pub token: Option<i64>,
    pub eos: bool,
    pub eos_reason: Option<EosReason>,
    pub full_text: Option<Seq<u8>>,
    pub new_tokens: usize,
}

impl StreamEvent {
    /// The event, its texts as bytes.
    pub open spec fn told(&self) -> Told {
        Told {
            serial: self.serial,
            stage: self.stage,
            text: encode_utf8(self.text@),
            token: self.token,
            eos: self.eos,
            eos_reason: self.eos_reason,
            full_text: match self.full_text {
                Some(t) => Some(encode_utf8(t@)),
                None => None,
            },
            new_tokens: self.new_tokens,
        }
    }

    /// An event without text.
    pub fn plain(serial: u64, stage: Stage) -> (r: StreamEvent)
        ensures
            r.told() == told_plain(serial, stage),
    {
        let text = String::new();
        assert(encode_utf8(text@) =~= seq![]);
        StreamEvent {
            serial,
            stage,
            text,
            token: None,
            eos: false,
            eos_reason: None,
            full_text: None,
            new_tokens: 0,
        }
    }

    /// The event of a job that cannot run.
    pub fn refused(serial: u64, reason: EosReason) -> (r: StreamEvent)
        ensures
            r.told() == told_refused(serial, reason),
    {
        let text = String::new();
        let full = String::new();
        assert(encode_utf8(text@) =~= seq![]);
        StreamEvent {
            serial,
            stage: Stage::Streaming,
            text,
            token: None,
            eos: true,
            eos_reason: Some(reason),
            full_text: Some(full),
            new_tokens: 0,
        }
    }
}

/// An event without text.
pub open spec fn told_plain(serial: u64, stage: Stage) -> Told {
    Told {
        serial,
        stage,
        text: seq![],
        token: None,
        eos: false,
        eos_reason: None,
        full_text: None,
        new_tokens: 0,
    }
}

/// The event of a job that cannot run.
pub open spec fn told_refused(serial: u64, reason: EosReason) -> Told {
    Told {
        serial,
        stage: Stage::Streaming,
        text: seq![],
        token: None,
        eos: true,
        eos_reason: Some(reason),
        full_text: Some(seq![]),
        new_tokens: 0,
    }
}

/// One request to the generator.
pub struct Job {
    pub serial: u64,
    /// The prompt and what was generated.
    pub seq: Vec<i64>,
    /// How much of `seq` is prompt; grows when the job is queued again.
    pub prompt_len: i64,
    /// How much of `seq` was prompt at first.
    pub stream_prompt_len: i64,
    /// The job is to be queued again with what it generated as its prompt.
    pub requeue_pending: bool,
    /// How much of `seq` is in the cache.
    pub kv_pos: i64,
    /// The job's pages.
    pub block: Vec<i32>,
    /// The recurrent-state slot, or -1.
    pub slot: i64,
    pub max_new: usize,
    pub min_new: usize,
    pub new_tokens: usize,
    pub stop_tokens: HashSet<i64>,
    pub stop_strings: Vec<String>,
    pub started_emitted: bool,
    pub emitted_text: String,
    /// The text decoded so far, and the windows of the incremental decoding.
    pub gen_text: String,
    pub detok_prefix: usize,
    pub detok_read: usize,
    pub done: bool,
    pub eos_reason: Option<EosReason>,
    /// The draft model's pages.
    pub draft_block: Vec<i32>,
    /// The speculator's state is primed.
    pub spec_primed: bool,
    /// From where the speculator's head is primed.
    pub spec_prime_from: i64,
    /// How many complete pages have their content hash.
    pub hashed_pages: usize,
    /// The negative context, its pages and its place in the cache.
    pub neg_seq: Option<Vec<i64>>,
    pub neg_block: Vec<i32>,
    pub neg_kv_pos: i64,
    pub cfg_primed: bool,
    pub accepted_draft_tokens: u64,
    pub rejected_draft_tokens: u64,
    /// The prompt token that is healed, its text, and the tokens that may stand for it.
    pub prefix_token: Option<i64>,
    pub unhealed_piece: String,
    pub heal_allowed: Vec<i64>,
    pub heal_pending: bool,
    pub heal_offset: usize,
    pub loop_detector: Option<LoopDetector>,
    pub filters: Vec<FilterState>,
}

/// A job, its texts as bytes.
#[verifier::ext_equal]
pub struct JobState {
    pub serial: u64,
    pub seq: Seq<i64>,
    pub prompt_len: i64,
    pub stream_prompt_len: i64,
    pub requeue_pending: bool,
    pub kv_pos: i64,
    pub block: Seq<i32>,
    pub slot: i64,
    pub max_new: usize,
    pub min_new: usize,
    pub new_tokens: usize,
    pub stop_tokens: Set<i64>,
    pub stop_strings: Seq<Seq<u8>>,
    pub started_emitted: bool,
    pub emitted_text: Seq<u8>,
    pub gen_text: Seq<u8>,
    pub detok_prefix: usize,
    pub detok_read: usize,
    pub done: bool,
    pub eos_reason: Option<EosReason>,
    pub draft_block: Seq<i32>,
    pub spec_primed: bool,
    pub spec_prime_from: i64,
    pub hashed_pages: usize,
    pub neg_seq: Option<Seq<i64>>,
    pub neg_block: Seq<i32>,
    pub neg_kv_pos: i64,
    pub cfg_primed: bool,
    pub accepted_draft_tokens: u64,
    pub rejected_draft_tokens: u64,
    pub prefix_token: Option<i64>,
    pub unhealed_piece: Seq<u8>,
    pub heal_allowed: Seq<i64>,
    pub heal_pending: bool,
    pub heal_offset: usize,
    pub watching: Option<Watching>,
    pub filters: Seq<Filtering>,
}

impl View for Job {
    type V = JobState;

    open spec fn view(&self) -> JobState {
        JobState {
            serial: self.serial,
            seq: self.seq@,
            prompt_len: self.prompt_len,
            stream_prompt_len: self.stream_prompt_len,
            requeue_pending: self.requeue_pending,
            kv_pos: self.kv_pos,
            block: self.block@,
            slot: self.slot,
            max_new: self.max_new,
            min_new: self.min_new,
            new_tokens: self.new_tokens,
            stop_tokens: self.stop_tokens@,
            stop_strings: texts_bytes(self.stop_strings@),
            started_emitted: self.started_emitted,
            emitted_text: encode_utf8(self.emitted_text@),
            gen_text: encode_utf8(self.gen_text@),
            detok_prefix: self.detok_prefix,
            detok_read: self.detok_read,
            done: self.done,
            eos_reason: self.eos_reason,
            draft_block: self.draft_block@,
            spec_primed: self.spec_primed,
            spec_prime_from: self.spec_prime_from,
            hashed_pages: self.hashed_pages,
            neg_seq: match self.neg_seq {
                Some(v) => Some(v@),
                None => None,
            },
            neg_block: self.neg_block@,
            neg_kv_pos: self.neg_kv_pos,
            cfg_primed: self.cfg_primed,
            accepted_draft_tokens: self.accepted_draft_tokens,
            rejected_draft_tokens: self.rejected_draft_tokens,
            prefix_token: self.prefix_token,
            unhealed_piece: encode_utf8(self.unhealed_piece@),
            heal_allowed: self.heal_allowed@,
            heal_pending: self.heal_pending,
            heal_offset: self.heal_offset,
            watching: match self.loop_detector {
                Some(d) => Some(d.state()),
                None => None,
            },
            filters: filterings(self.filters@),
        }
    }
}

/// How many tokens were generated for the caller: a healed token does not count.
pub open spec fn gen_count_of(s: JobState) -> int {
    if s.new_tokens >= s.heal_offset {
        s.new_tokens - s.heal_offset
    } else {
        0
    }
}

/// How many tokens were generated for the caller since the job was last let in: those of an
/// earlier turn are part of its prompt.
pub open spec fn lap_of(s: JobState) -> int {
    if s.prompt_len == s.stream_prompt_len {
        gen_count_of(s)
    } else {
        s.seq.len() - s.prompt_len
    }
}

/// How many tokens may still come, and one.
pub open spec fn gen_reserve_of(s: JobState) -> int {
    (if s.max_new > s.new_tokens {
        s.max_new - s.new_tokens
    } else {
        0
    }) + 1
}

/// Whether the prompt is in the cache, but for its last token.
pub open spec fn prefilled(s: JobState) -> bool {
    s.kv_pos >= s.prompt_len - 1
}

/// What every job keeps.
pub open spec fn job_ok(s: JobState) -> bool {
    &&& 1 <= s.stream_prompt_len <= s.prompt_len <= s.seq.len()
    &&& s.seq.len() == s.stream_prompt_len + s.new_tokens
    &&& 0 <= s.kv_pos < s.seq.len()
    &&& if prefilled(s) {
        s.kv_pos == s.seq.len() - 1
    } else {
        s.seq.len() == s.prompt_len
    }
    &&& s.heal_offset <= 1
    &&& s.detok_prefix <= s.detok_read <= s.new_tokens
    &&& s.stream_prompt_len + s.max_new <= i64::MAX - 1024
    &&& s.max_new <= usize::MAX - 1024
    &&& !s.done ==> s.new_tokens == 0 || gen_count_of(s) < s.max_new
    &&& s.new_tokens <= s.max_new + 2
}

impl Job {
    /// The parts keep what they must.
    pub open spec fn inv(&self) -> bool {
        &&& job_ok(self@)
        &&& match self.loop_detector {
            Some(d) => d.inv(),
            None => true,
        }
        &&& forall|i: int| 0 <= i < self.filters@.len() ==> (#[trigger] self.filters@[i]).inv()
    }

    /// Whether the prompt is in the cache, but for its last token.
    pub fn prefill_done(&self) -> (r: bool)
        requires
            self.inv(),
        ensures
            r == prefilled(self@),
    {
        self.kv_pos >= self.prompt_len - 1
    }

    /// How many pages the job holds.
    pub fn pages_held(&self) -> (r: usize)
        ensures
            r == self@.block.len(),
    {
        self.block.len()
    }

    /// How many tokens may still come, and one.
    pub fn gen_reserve(&self) -> (r: i64)
        requires
            self.inv(),
        ensures
            r == gen_reserve_of(self@),
    {
        if self.max_new > self.new_tokens {
            (self.max_new - self.new_tokens) as i64 + 1
        } else {
            1
        }
    }

    /// How many pages the job will ever need.
    pub fn pages_needed(&self) -> (r: i64)
        requires
            self.inv(),
        ensures
            r == page_count(self@.prompt_len + gen_reserve_of(self@)),
    {
        let n = self.gen_reserve();
        pages_for(self.prompt_len + n)
    }

    /// How many tokens were generated for the caller.
    pub fn gen_count(&self) -> (r: usize)
        ensures
            r == gen_count_of(self@),
    {
        if self.new_tokens >= self.heal_offset {
            self.new_tokens - self.heal_offset
        } else {
            0
        }
    }
}

/// What a new token meets.
#[derive(Clone, Copy, Debug, PartialEq, Eq, Structural)]
pub struct Hits {
    pub token: i64,
    /// It is a stop token, and enough tokens were generated.
    pub stop: bool,
    /// It is the last one that may be generated.
    pub max: bool,
    /// It completes a loop.
    pub looping: bool,
    /// It completes a filter that ends the job.
    pub filter: bool,
}

/// Whether a token meets anything.
pub open spec fn ends(h: Hits) -> bool {
    h.stop || h.max || h.looping || h.filter
}

/// Whether a token completes a filter that ends the job.
pub open spec fn completes(filters: Seq<Filtering>, next: i64) -> bool {
    exists|i: int|
        0 <= i < filters.len() && effect(#[trigger] filters[i], next) == Fj::Complete && filters[i].stops
}

/// The job with a new token.
pub open spec fn with_token(s: JobState, next: i64) -> JobState {
    JobState {
        kv_pos: (s.kv_pos + 1) as i64,
        seq: s.seq.push(next),
        new_tokens: (s.new_tokens + 1) as usize,
        watching: match s.watching {
            Some(w) => Some(watched(w, next)),
            None => None,
        },
        filters: Seq::new(s.filters.len(), |i: int| fed(s.filters[i], next)),
        ..s
    }
}

/// What a new token of the job meets; `s` is the job with it.
pub open spec fn hits_of(before: JobState, next: i64) -> Hits {
    let s = with_token(before, next);
    Hits {
        token: next,
        stop: s.stop_tokens.contains(next) && gen_count_of(s) > s.min_new,
        max: gen_count_of(s) >= s.max_new,
        looping: match s.watching {
            Some(w) => loops(w),
            None => false,
        },
        filter: completes(before.filters, next),
    }
}

/// What is true of a job between a new token and its event.
pub open spec fn told_next(s: JobState, h: Hits) -> bool {
    &&& 1 <= s.stream_prompt_len <= s.prompt_len <= s.seq.len()
    &&& s.seq.len() == s.stream_prompt_len + s.new_tokens
    &&& s.kv_pos == s.seq.len() - 1
    &&& s.new_tokens >= 1
    &&& s.heal_offset <= 1
    &&& s.detok_prefix <= s.detok_read < s.new_tokens
    &&& s.stream_prompt_len + s.max_new <= i64::MAX - 1024
    &&& s.max_new <= usize::MAX - 1024
    &&& s.new_tokens <= s.max_new + 2
    &&& h.max == (gen_count_of(s) >= s.max_new)
}

/// Whether the event of a new token needs the whole text.
pub open spec fn needs_whole(s: JobState, h: Hits) -> bool {
    s.stop_strings.len() > 0 || ends(h)
}

/// What is decoded for an event: what was read before of the window, the window or the whole
/// text, and the whole text without its last token.
pub struct Heard {
    pub prefix: String,
    pub text: String,
    pub without_last: String,
}

/// The job with the window read, where it ends in a whole character and adds something.
pub open spec fn with_window(s: JobState, prefix: Seq<char>, text: Seq<char>) -> JobState {
    match stripped(encode_utf8(text), encode_utf8(prefix)) {
        Some(delta) => if delta.len() > 0 && text.last() != '\u{FFFD}' {
            JobState {
                gen_text: s.gen_text + delta,
                detok_prefix: s.detok_read,
                detok_read: s.new_tokens,
                ..s
            }
        } else {
            s
        },
        None => s,
    }
}

/// A text without what the healed token brought from the prompt.
pub open spec fn without_healed(s: JobState, text: Seq<u8>) -> Seq<u8> {
    if s.heal_offset == 1 {
        match stripped(text, s.unhealed_piece) {
            Some(rest) => rest,
            None => text,
        }
    } else {
        text
    }
}

/// Why an event is the last one.
pub open spec fn reason_of(h: Hits, stop: Option<int>) -> Option<EosReason> {
    if stop is Some {
        Some(EosReason::StopString)
    } else if h.stop {
        Some(EosReason::StopToken)
    } else if h.max {
        Some(EosReason::MaxNewTokens)
    } else if h.looping {
        Some(EosReason::LoopDetected)
    } else if h.filter {
        Some(EosReason::FilterCompleted)
    } else {
        None
    }
}

/// The job after what was decoded, before anything is shown, and the text so far.
pub open spec fn decoded(s: JobState, h: Hits, heard: Heard) -> (JobState, Seq<u8>) {
    if needs_whole(s, h) {
        (s, without_healed(s, encode_utf8(heard.text@)))
    } else {
        let t = with_window(s, heard.prefix@, heard.text@);
        (t, without_healed(t, t.gen_text))
    }
}

/// The job after the event of a new token, and the event.
pub open spec fn finished(s: JobState, h: Hits, heard: Heard, budget: usize) -> (JobState, Told) {
    let (t, full) = decoded(s, h, heard);
    let stop = first_stop(full, t.stop_strings);
    let reason = reason_of(h, stop);
    let visible = match stop {
        Some(p) => full.take(p),
        None => if h.stop {
            without_healed(t, encode_utf8(heard.without_last@))
        } else {
            full
        },
    };
    let eos = reason is Some;
    let text = shown(
        visible,
        if eos {
            0
        } else {
            held_back(t.stop_strings)
        },
        t.emitted_text,
    );
    let u = JobState { emitted_text: t.emitted_text + text, ..t };
    (
        if eos {
            JobState { done: true, eos_reason: reason, ..u }
        } else if budget > 0 && t.neg_seq is None && lap_of(t) > budget {
            JobState { requeue_pending: true, ..u }
        } else {
            u
        },
        Told {
            serial: s.serial,
            stage: Stage::Streaming,
            text,
            token: Some(h.token),
            eos,
            eos_reason: reason,
            full_text: if eos {
                Some(visible)
            } else {
                None
            },
            new_tokens: gen_count_of(t) as usize,
        },
    )
}

/// A text with another one behind it.
fn joined(a: &str, b: &str) -> (r: String)
    ensures
        encode_utf8(r@) == encode_utf8(a@) + encode_utf8(b@),
{
    let mut x = crate::text::chars_of(a);
    crate::text::push_text(&mut x, b);
    proof {
        lemma_bytes_concat(a@, b@);
    }
    crate::text::string_of(&x)
}

fn last_char_is(text: &str, c: char) -> (r: bool)
    ensures
        text@.len() > 0 ==> r == (text@.last() == c),
        text@.len() == 0 ==> !r,
{
    let x = crate::text::chars_of(text);
    let n: usize = x.len();
    n > 0 && x[n - 1] == c
}

/// Whether filters have the caches that they had.
pub open spec fn same_caches(now: Seq<FilterState>, before: Seq<FilterState>) -> bool {
    now.len() == before.len() && forall|i: int|
        0 <= i < now.len() ==> (#[trigger] now[i]).caches() == before[i].caches()
}

impl Job {
    fn feed_filters(&mut self, next: i64) -> (r: bool)
        requires
            forall|i: int| 0 <= i < old(self).filters@.len() ==> (#[trigger] old(self).filters@[i]).inv(),
        ensures
            forall|i: int| 0 <= i < final(self).filters@.len() ==> (#[trigger] final(self).filters@[i]).inv(),
            r == completes(old(self)@.filters, next),
            final(self)@ == (JobState {
                filters: Seq::new(old(self)@.filters.len(), |i: int| fed(old(self)@.filters[i], next)),
                ..old(self)@
            }),
            final(self).loop_detector == old(self).loop_detector,
            same_caches(final(self).filters@, old(self).filters@),
    {
        let ghost fs = self.filters@;
        let ghost before = self@;
        let mut hit: bool = false;
        let mut i: usize = 0;
        while i < self.filters.len()
            invariant
                i <= fs.len(),
                self.filters@.len() == fs.len(),
                before == old(self)@,
                fs == old(self).filters@,
                before.filters == filterings(fs),
                forall|j: int| 0 <= j < fs.len() ==> (#[trigger] fs[j]).inv(),
                forall|j: int| 0 <= j < i ==> (#[trigger] self.filters@[j]).inv() && self.filters@[j].now() == fed(
                    fs[j].now(),
                    next,
                ) && self.filters@[j].caches() == fs[j].caches(),
                forall|j: int| i <= j < fs.len() ==> #[trigger] self.filters@[j] == fs[j],
                hit == exists|j: int|
                    0 <= j < i && effect(#[trigger] before.filters[j], next) == Fj::Complete
                        && before.filters[j].stops,
                self@ == (JobState { filters: filterings(self.filters@), ..before }),
                self.loop_detector == old(self).loop_detector,
            decreases fs.len() - i,
        {
            assert(self.filters@[i as int] == fs[i as int]);
            assert(before.filters[i as int] == fs[i as int].now());
            if self.filters[i].feed(next) {
                hit = true;
            }
            i = i + 1;
        }
        assert(filterings(self.filters@) =~= Seq::new(
            before.filters.len(),
            |j: int| fed(before.filters[j], next),
        ));
        hit
    }

    /// Take a new token. Returns what it meets.
    pub fn take_token(&mut self, next: i64) -> (r: Hits)
        requires
            old(self).inv(),
            prefilled(old(self)@),
            !old(self)@.done,
        ensures
            final(self)@ == with_token(old(self)@, next),
            r == hits_of(old(self)@, next),
            told_next(final(self)@, r),
            final(self).parts_ok(),
            same_caches(final(self).filters@, old(self).filters@),
    {
        let ghost s = self@;
        self.kv_pos = self.kv_pos + 1;
        self.seq.push(next);
        self.new_tokens = self.new_tokens + 1;
        let count = self.gen_count();
        let stop = self.stop_tokens.contains(&next) && count > self.min_new;
        let max = count >= self.max_new;
        let looping = match &mut self.loop_detector {
            Some(d) => d.feed(next),
            None => false,
        };
        let filter = self.feed_filters(next);
        assert(self@ =~= with_token(s, next));
        Hits { token: next, stop, max, looping, filter }
    }

    /// The parts keep what they must.
    pub open spec fn parts_ok(&self) -> bool {
        &&& match self.loop_detector {
            Some(d) => d.inv(),
            None => true,
        }
        &&& forall|i: int| 0 <= i < self.filters@.len() ==> (#[trigger] self.filters@[i]).inv()
    }
}

/// Which tokens are decoded for an event, as places in the sequence.
#[derive(Clone, Copy, Debug, PartialEq, Eq)]
pub struct Windows {
    pub prefix: (usize, usize),
    pub text: (usize, usize),
    pub without_last: Option<(usize, usize)>,
}

/// Which tokens are decoded for an event: the window of the incremental decoding, or all that
/// was generated; and all but the last, where that is a stop token.
pub open spec fn windows_of(s: JobState, h: Hits) -> Windows {
    let base = s.stream_prompt_len as usize;
    let end = s.seq.len() as usize;
    Windows {
        prefix: if needs_whole(s, h) {
            (base, base)
        } else {
            ((base + s.detok_prefix) as usize, (base + s.detok_read) as usize)
        },
        text: if needs_whole(s, h) {
            (base, end)
        } else {
            ((base + s.detok_prefix) as usize, end)
        },
        without_last: if h.stop {
            Some((base, (end - 1) as usize))
        } else {
            None
        },
    }
}

impl Job {
    /// Which tokens are decoded for the event of a new token.
    pub fn windows(&self, h: Hits) -> (r: Windows)
        requires
            told_next(self@, h),
        ensures
            r == windows_of(self@, h),
            r.prefix.0 <= r.prefix.1 <= self@.seq.len(),
            r.text.0 <= r.text.1 <= self@.seq.len(),
            r.without_last matches Some(w) ==> w.0 <= w.1 <= self@.seq.len(),
    {
        let end: usize = self.seq.len();
        let base: usize = self.stream_prompt_len as usize;
        let whole = self.stop_strings.len() > 0 || h.stop || h.max || h.looping || h.filter;
        assert(whole == needs_whole(self@, h));
        let without_last = if h.stop {
            Some((base, end - 1))
        } else {
            None
        };
        if whole {
            Windows { prefix: (base, base), text: (base, end), without_last }
        } else {
            Windows {
                prefix: (base + self.detok_prefix, base + self.detok_read),
                text: (base + self.detok_prefix, end),
                without_last,
            }
        }
    }

    /// Advance the incremental decoding: `prefix` is what the window gave before, `text` what
    /// it gives with the tokens that came since.
    pub fn extend_detok(&mut self, prefix: &str, text: &str)
        ensures
            final(self)@ == with_window(old(self)@, prefix@, text@),
            final(self).loop_detector == old(self).loop_detector,
            final(self).filters == old(self).filters,
    {
        let ghost s = self@;
        match strip(text, prefix) {
            Some(delta) => {
                let n: usize = delta.as_str().as_bytes().len();
                if n > 0 && !last_char_is(text, '\u{FFFD}') {
                    proof {
                        if text@.len() == 0 {
                            assert(encode_utf8(text@).len() == 0);
                        }
                    }
                    self.gen_text = joined(self.gen_text.as_str(), delta.as_str());
                    self.detok_prefix = self.detok_read;
                    self.detok_read = self.new_tokens;
                }
            },
            None => {},
        }
        assert(self@ =~= with_window(s, prefix@, text@));
    }

    fn unhealed(&self, text: String) -> (r: String)
        ensures
            encode_utf8(r@) == without_healed(self@, encode_utf8(text@)),
    {
        if self.heal_offset == 1 {
            match strip(text.as_str(), self.unhealed_piece.as_str()) {
                Some(rest) => rest,
                None => text,
            }
        } else {
            text
        }
    }

    fn lap(&self) -> (r: usize)
        requires
            0 <= self.prompt_len <= self.seq@.len() <= i64::MAX,
        ensures
            r == lap_of(self@),
    {
        if self.prompt_len == self.stream_prompt_len {
            self.gen_count()
        } else {
            (self.seq.len() as i64 - self.prompt_len) as usize
        }
    }

    /// The event of a new token, from what was decoded for it. A job that has
    /// generated more than `budget` tokens since it was let in is queued again, unless that is 0.
    pub fn finish_event(&mut self, h: Hits, heard: &Heard, budget: usize) -> (r: StreamEvent)
        requires
            told_next(old(self)@, h),
            old(self).parts_ok(),
        ensures
            final(self).inv(),
            (final(self)@, r.told()) == finished(old(self)@, h, *heard, budget),
    {
        let ghost s = self@;
        let whole = self.stop_strings.len() > 0 || h.stop || h.max || h.looping || h.filter;
        assert(whole == needs_whole(s, h));
        let raw = if whole {
            heard.text.clone()
        } else {
            self.extend_detok(heard.prefix.as_str(), heard.text.as_str());
            self.gen_text.clone()
        };
        let ghost t = self@;
        let full = self.unhealed(raw);
        assert((t, encode_utf8(full@)) == decoded(s, h, *heard));
        let stop = find_stop(full.as_str(), &self.stop_strings);
        let mut reason: Option<EosReason> = None;
        let visible = match stop {
            Some(p) => {
                reason = Some(EosReason::StopString);
                head(full.as_str(), p)
            },
            None => if h.stop {
                reason = Some(EosReason::StopToken);
                self.unhealed(heard.without_last.clone())
            } else {
                full
            },
        };
        if reason.is_none() {
            if h.max {
                reason = Some(EosReason::MaxNewTokens);
            } else if h.looping {
                reason = Some(EosReason::LoopDetected);
            } else if h.filter {
                reason = Some(EosReason::FilterCompleted);
            }
        }
        let eos = reason.is_some();
        let hold: usize = if eos {
            0
        } else {
            hold_back(&self.stop_strings)
        };
        let text = show(visible.as_str(), hold, self.emitted_text.as_str());
        self.emitted_text = joined(self.emitted_text.as_str(), text.as_str());
        let count = self.gen_count();
        if eos {
            self.done = true;
            self.eos_reason = reason;
        } else if budget > 0 && self.neg_seq.is_none() && self.lap() > budget {
            self.requeue_pending = true;
        }
        let full_text = if eos {
            Some(visible)
        } else {
            None
        };
        assert(self@ =~= finished(s, h, *heard, budget).0);
        let r = StreamEvent {
            serial: self.serial,
            stage: Stage::Streaming,
            text,
            token: Some(h.token),
            eos,
            eos_reason: reason,
            full_text,
            new_tokens: count,
        };
        assert(r.told() =~= finished(s, h, *heard, budget).1);
        r
    }
}

/// An event is the last one exactly when a stop string, a stop token, the greatest length, a
/// loop or a completed filter ends the job; only the last event carries the whole text.
pub proof fn jobs_end_for_a_reason(s: JobState, h: Hits, heard: Heard, budget: usize)
    ensures
        ({
            let (t, ev) = finished(s, h, heard, budget);
            &&& ev.eos == (first_stop(decoded(s, h, heard).1, s.stop_strings) is Some || ends(h))
            &&& ev.eos == (ev.eos_reason is Some)
            &&& ev.eos == (ev.full_text is Some)
            &&& ev.eos ==> t.done && t.eos_reason == ev.eos_reason
        }),
{
}

/// The texts shown of a job, put together, are its whole text, where what was shown before is
/// a prefix of that.
pub proof fn shown_texts_make_the_whole(s: JobState, h: Hits, heard: Heard, budget: usize, visible: Seq<char>, before: Seq<char>)
    requires
        finished(s, h, heard, budget).1.eos,
        finished(s, h, heard, budget).1.full_text == Some(encode_utf8(visible)),
        s.emitted_text == encode_utf8(before),
        crate::generator::emission::starts_with(encode_utf8(visible), encode_utf8(before)),
    ensures
        finished(s, h, heard, budget).0.emitted_text == encode_utf8(visible),
{
    crate::generator::emission::shown_text_ends_complete(visible, before);
}

/// What a caller asks for.
pub struct JobSpec {
    pub prompt: Vec<i64>,
    pub max_new: usize,
    pub min_new: usize,
    pub stop_tokens: HashSet<i64>,
    pub stop_strings: Vec<String>,
    /// Generate the last prompt token again, among the tokens that share its text as prefix.
    pub token_healing: bool,
    /// A window and a number of repeats: stop once the last tokens of the window are a sequence
    /// that repeats so often.
    pub stop_on_loop: Option<(i64, usize)>,
    pub filters: Vec<FilterState>,
    /// The negative prompt of classifier-free guidance.
    pub negative: Option<Vec<i64>>,
}

impl JobSpec {
    /// A plain request.
    pub fn new(prompt: Vec<i64>, max_new: usize) -> (r: JobSpec)
        ensures
            r.prompt == prompt,
            r.max_new == max_new,
            r.min_new == 0,
            r.stop_tokens@ == Set::<i64>::empty(),
            r.stop_strings@.len() == 0,
            !r.token_healing,
            r.stop_on_loop is None,
            r.filters@.len() == 0,
            r.negative is None,
    {
        JobSpec {
            prompt,
            max_new,
            min_new: 0,
            stop_tokens: HashSet::new(),
            stop_strings: Vec::new(),
            token_healing: false,
            stop_on_loop: None,
            filters: Vec::new(),
            negative: None,
        }
    }

    /// Whether the last prompt token is healed, given the tokens that may stand for it.
    pub open spec fn heals(&self, allowed: Seq<i64>) -> bool {
        self.token_healing && self.prompt@.len() > 1 && allowed.len() > 0
    }

    /// What a request must hold.
    pub open spec fn sensible(&self) -> bool {
        &&& self.prompt@.len() >= 1
        &&& self.prompt@.len() + self.max_new <= i64::MAX - 1024
        &&& self.max_new <= usize::MAX - 1024
        &&& match self.stop_on_loop {
            Some((w, reps)) => w <= usize::MAX && reps <= i64::MAX,
            None => true,
        }
        &&& match self.negative {
            Some(n) => 1 <= n@.len() && n@.len() + self.max_new <= i64::MAX - 1024,
            None => true,
        }
        &&& forall|i: int| 0 <= i < self.filters@.len() ==> (#[trigger] self.filters@[i]).inv()
    }
}

/// The longest period to watch for a loop that repeats `reps` times in a window of `w`.
pub open spec fn loop_period(w: int, reps: int) -> int {
    let p = quotient(
        w,
        if reps >= 1 {
            reps
        } else {
            1
        },
    );
    if p >= 1 {
        p
    } else {
        1
    }
}

/// A new detector for a request.
pub open spec fn watching_of(stop_on_loop: Option<(i64, usize)>) -> Option<Watching> {
    match stop_on_loop {
        Some((w, reps)) => {
            let window = window_of(w as int);
            let longest = period_cap(window, Some(loop_period(w as int, reps as int) as usize));
            Some(Watching { window, longest, tokens: seq![] })
        },
        None => None,
    }
}

/// A new job. `piece` is the text of the last prompt token, `allowed` the tokens whose texts
/// start with it.
pub open spec fn new_job(spec: JobSpec, serial: u64, piece: Seq<u8>, allowed: Seq<i64>) -> JobState {
    let heals = spec.heals(allowed);
    let seq = if heals {
        spec.prompt@.drop_last()
    } else {
        spec.prompt@
    };
    JobState {
        serial,
        seq,
        prompt_len: seq.len() as i64,
        stream_prompt_len: seq.len() as i64,
        requeue_pending: false,
        kv_pos: 0,
        block: seq![],
        slot: -1i64,
        max_new: spec.max_new,
        min_new: spec.min_new,
        new_tokens: 0,
        stop_tokens: spec.stop_tokens@,
        stop_strings: texts_bytes(spec.stop_strings@),
        started_emitted: false,
        emitted_text: seq![],
        gen_text: seq![],
        detok_prefix: 0,
        detok_read: 0,
        done: false,
        eos_reason: None,
        draft_block: seq![],
        spec_primed: false,
        spec_prime_from: 0,
        hashed_pages: 0,
        neg_seq: match spec.negative {
            Some(v) => Some(v@),
            None => None,
        },
        neg_block: seq![],
        neg_kv_pos: 0,
        cfg_primed: false,
        accepted_draft_tokens: 0,
        rejected_draft_tokens: 0,
        prefix_token: if heals {
            Some(spec.prompt@.last())
        } else {
            None
        },
        unhealed_piece: if heals {
            piece
        } else {
            seq![]
        },
        heal_allowed: if heals {
            allowed
        } else {
            seq![]
        },
        heal_pending: heals,
        heal_offset: if heals {
            1
        } else {
            0
        },
        watching: watching_of(spec.stop_on_loop),
        filters: filterings(spec.filters@),
    }
}

/// A job that is queued again, with what it generated as its prompt.
pub open spec fn requeued(s: JobState) -> JobState {
    JobState {
        prompt_len: s.seq.len() as i64,
        kv_pos: 0,
        block: seq![],
        draft_block: seq![],
        slot: -1i64,
        hashed_pages: 0,
        spec_primed: false,
        heal_pending: false,
        heal_allowed: seq![],
        requeue_pending: false,
        ..s
    }
}

/// The tokens that an earlier occurrence of the current suffix was followed by: the
/// occurrence ends at `end` and began at `beg`.
pub open spec fn ngram_draft(s: JobState, beg: int, end: int, length: int, shortest: int) -> Seq<i64> {
    let n = s.seq.len() as int;
    let a = if end < 0 {
        0
    } else if end > n {
        n
    } else {
        end
    };
    let b = if end + length < 0 {
        0
    } else if end + length > n {
        n
    } else {
        end + length
    };
    if s.heal_pending || end - beg < shortest {
        seq![]
    } else {
        s.seq.subrange(a, b)
    }
}

fn loop_watch(w: i64, reps: usize) -> (r: LoopDetector)
    requires
        w <= usize::MAX,
        reps <= i64::MAX,
    ensures
        r.inv(),
        watching_of(Some((w, reps))) == Some(r.state()),
{
    let k: i64 = if reps >= 1 {
        reps as i64
    } else {
        1
    };
    proof {
        if w >= 0 {
            assert(w as int / k as int <= w) by (nonlinear_arith)
                requires
                    w >= 0,
                    k >= 1,
            ;
        }
    }
    let p: i64 = divide(w, k);
    let period: usize = if p >= 1 {
        p as usize
    } else {
        1
    };
    let r = LoopDetector::new(w, Some(period));
    assert(r.state() =~= watching_of(Some((w, reps)))->0);
    r
}

impl Job {
    /// A new job. `piece` is the text of the last prompt token, `allowed` the tokens whose
    /// texts start with it.
    pub fn new(spec: JobSpec, serial: u64, piece: String, allowed: Vec<i64>) -> (r: Job)
        requires
            spec.sensible(),
        ensures
            r.inv(),
            r@ == new_job(spec, serial, encode_utf8(piece@), allowed@),
    {
        let ghost sp = spec;
        let ghost al = allowed@;
        let heals = spec.token_healing && spec.prompt.len() > 1 && allowed.len() > 0;
        let JobSpec {
            prompt,
            max_new,
            min_new,
            stop_tokens,
            stop_strings,
            token_healing,
            stop_on_loop,
            filters,
            negative,
        } = spec;
        let mut seq = prompt;
        let mut prefix_token: Option<i64> = None;
        let mut unhealed_piece = String::new();
        let mut heal_allowed: Vec<i64> = Vec::new();
        assert(encode_utf8(unhealed_piece@) =~= seq![]);
        if heals {
            prefix_token = seq.pop();
            unhealed_piece = piece;
            heal_allowed = allowed;
        }
        let loop_detector = match stop_on_loop {
            Some((w, reps)) => Some(loop_watch(w, reps)),
            None => None,
        };
        let prompt_len: i64 = seq.len() as i64;
        let emitted_text = String::new();
        let gen_text = String::new();
        assert(encode_utf8(emitted_text@) =~= seq![]);
        let r = Job {
            serial,
            seq,
            prompt_len,
            stream_prompt_len: prompt_len,
            requeue_pending: false,
            kv_pos: 0,
            block: Vec::new(),
            slot: -1,
            max_new,
            min_new,
            new_tokens: 0,
            stop_tokens,
            stop_strings,
            started_emitted: false,
            emitted_text,
            gen_text,
            detok_prefix: 0,
            detok_read: 0,
            done: false,
            eos_reason: None,
            draft_block: Vec::new(),
            spec_primed: false,
            spec_prime_from: 0,
            hashed_pages: 0,
            neg_seq: negative,
            neg_block: Vec::new(),
            neg_kv_pos: 0,
            cfg_primed: false,
            accepted_draft_tokens: 0,
            rejected_draft_tokens: 0,
            prefix_token,
            unhealed_piece,
            heal_allowed,
            heal_pending: heals,
            heal_offset: if heals {
                1
            } else {
                0
            },
            loop_detector,
            filters,
        };
        assert(r@ =~= new_job(sp, serial, encode_utf8(piece@), al));
        r
    }

    /// Make what was generated the prompt, and give up the place in the cache.
    pub fn fold(&mut self)
        requires
            old(self).inv(),
        ensures
            final(self).inv(),
            final(self)@ == requeued(old(self)@),
    {
        let ghost s = self@;
        self.prompt_len = self.seq.len() as i64;
        self.kv_pos = 0;
        self.block = Vec::new();
        self.draft_block = Vec::new();
        self.slot = -1;
        self.hashed_pages = 0;
        self.spec_primed = false;
        self.heal_pending = false;
        self.heal_allowed = Vec::new();
        self.requeue_pending = false;
        assert(self@ =~= requeued(s));
    }

    /// Draft tokens from the place, found by the suffix matcher, of the earliest occurrence of
    /// the longest current suffix.
    pub fn get_ngram_draft(&self, beg: i64, end: i64, draft_length: i64, match_min: usize) -> (r: Vec<i64>)
        requires
            self.inv(),
            draft_length >= 0,
            end + draft_length <= i64::MAX,
            i64::MIN <= end - beg <= i64::MAX,
            match_min <= i64::MAX,
        ensures
            r@ == ngram_draft(self@, beg as int, end as int, draft_length as int, match_min as int),
    {
        let mut r: Vec<i64> = Vec::new();
        if self.heal_pending || end - beg < match_min as i64 {
            return r;
        }
        let n: i64 = self.seq.len() as i64;
        let a: i64 = if end < 0 {
            0
        } else if end > n {
            n
        } else {
            end
        };
        let b: i64 = if end + draft_length < 0 {
            0
        } else if end + draft_length > n {
            n
        } else {
            end + draft_length
        };
        let mut i: i64 = a;
        while i < b
            invariant
                0 <= a <= i <= b <= self.seq@.len(),
                self.seq@.len() <= i64::MAX,
                r@ == self.seq@.subrange(a as int, i as int),
            decreases b - i,
        {
            let len: usize = self.seq.len();
            assert(i < len);
            r.push(self.seq[i as usize]);
            i = i + 1;
            assert(r@ =~= self.seq@.subrange(a as int, i as int));
        }
        r
    }

    /// The healed token was sampled.
    pub fn end_healing(&mut self)
        requires
            old(self).inv(),
        ensures
            final(self).inv(),
            final(self)@ == (JobState { heal_pending: false, heal_allowed: seq![], ..old(self)@ }),
    {
        self.heal_pending = false;
        self.heal_allowed = Vec::new();
        assert(self@ =~= (JobState { heal_pending: false, heal_allowed: seq![], ..old(self)@ }));
    }
}

} // verus!
