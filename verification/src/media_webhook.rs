//! Signed webhook notifications for media-processing lifecycle events.
use vstd::prelude::*;
use crate::crypto::{
    base64url_char, base64url_decode, base64url_encode, base64url_text, hmac_sha256,
    hmac_sha256_tag, hmac_sha256_verify,
};
use crate::text::{all_digits, byte_len, chars_of, contains_str, decimal, is_ascii_digit, last_index, lemma_first_index, lemma_parse_decimal, owned, parse_u64, parse_u64_spec, push_decimal, push_str, rfind_char, split_on, split_str, str_contains_char, str_eq, substring, views};
use crate::time::{SystemTime, NANOS_PER_SEC};

verus! {

#[derive(Debug, Clone, Copy, PartialEq, Eq, Structural)]
pub enum MediaEventKind {
    Queued,
    Progress,
    Succeeded,
    Failed,
    Cancelled,
}

#[derive(Debug, Clone, Copy, PartialEq, Eq, Structural)]
pub enum MediaWebhookError {
    InvalidSecret,
    InvalidEvent,
    PayloadTooLarge,
    InvalidTimestamp,
    InvalidSignature,
    Replay,
    Filtered,
}

#[derive(Debug, Clone, PartialEq, Eq)]
pub struct MediaWebhookEvent {
    pub id: String,
    pub task_id: String,
    pub kind: MediaEventKind,
    pub progress: Option<u8>,
    pub attempt: u32,
    pub timestamp: u64,
    pub detail: Option<String>,
}

/// Signs events and verifies signed tokens, refusing a token whose event id it has seen.
#[derive(Debug)]
pub struct MediaWebhookSigner {
    secret: Vec<u8>,
    seen: Vec<String>,
    max_payload_bytes: usize,
}

/// The fields of an event: id, task id, kind, progress, attempt, timestamp and detail.
pub type EventFields = (Seq<char>, Seq<char>, MediaEventKind, Option<u8>, u32, u64, Option<Seq<char>>);

pub open spec fn fields_of(e: MediaWebhookEvent) -> EventFields {
    (
        e.id@,
        e.task_id@,
        e.kind,
        e.progress,
        e.attempt,
        e.timestamp,
        match e.detail {
            Some(d) => Some(d@),
            None => None,
        },
    )
}

pub open spec fn kind_text(kind: MediaEventKind) -> Seq<char> {
    match kind {
        MediaEventKind::Queued => "queued"@,
        MediaEventKind::Progress => "progress"@,
        MediaEventKind::Succeeded => "succeeded"@,
        MediaEventKind::Failed => "failed"@,
        MediaEventKind::Cancelled => "cancelled"@,
    }
}

pub open spec fn parse_kind_spec(s: Seq<char>) -> Option<MediaEventKind> {
    if s == "queued"@ {
        Some(MediaEventKind::Queued)
    } else if s == "progress"@ {
        Some(MediaEventKind::Progress)
    } else if s == "succeeded"@ {
        Some(MediaEventKind::Succeeded)
    } else if s == "failed"@ {
        Some(MediaEventKind::Failed)
    } else if s == "cancelled"@ {
        Some(MediaEventKind::Cancelled)
    } else {
        None
    }
}

/// The rules every event obeys: ids and task ids of 1 to 128 bytes, a detail of at most 1024
/// bytes, none of them holding `|`; an attempt from 1; a progress of at most 100, present for
/// progress events.
pub open spec fn valid_fields(f: EventFields) -> bool {
    &&& f.0.len() > 0 && byte_len(f.0) <= 128 && !f.0.contains('|')
    &&& f.1.len() > 0 && byte_len(f.1) <= 128 && !f.1.contains('|')
    &&& f.4 != 0
    &&& (f.3 matches Some(p) ==> p <= 100)
    &&& (f.6 matches Some(d) ==> byte_len(d) <= 1024 && !d.contains('|'))
    &&& (f.2 is Progress ==> f.3 is Some)
}

pub open spec fn progress_text(p: Option<u8>) -> Seq<char> {
    match p {
        Some(v) => decimal(v as nat),
        None => "-"@,
    }
}

/// `id|task|kind|progress|attempt|timestamp|detail`.
pub open spec fn payload_text(f: EventFields) -> Seq<char> {
    f.0 + "|"@ + f.1 + "|"@ + kind_text(f.2) + "|"@ + progress_text(f.3) + "|"@ + decimal(
        f.4 as nat,
    ) + "|"@ + decimal(f.5 as nat) + "|"@ + match f.6 {
        Some(d) => d,
        None => Seq::empty(),
    }
}

/// The base64 text of the payload's tag under `secret`.
pub open spec fn signature_text(secret: Seq<u8>, payload: Seq<char>) -> Seq<char> {
    base64url_text(hmac_sha256_tag(secret, vstd::utf8::encode_utf8(payload)))
}

/// What `encode` answers.
pub open spec fn encode_spec(secret: Seq<u8>, max: nat, f: EventFields) -> Result<
    Seq<char>,
    MediaWebhookError,
> {
    if !valid_fields(f) {
        Err(MediaWebhookError::InvalidEvent)
    } else if byte_len(payload_text(f)) > max {
        Err(MediaWebhookError::PayloadTooLarge)
    } else {
        Ok(payload_text(f) + "."@ + signature_text(secret, payload_text(f)))
    }
}

/// The event a payload names, checked against the time window (seconds since the epoch).
pub open spec fn parse_payload(payload: Seq<char>, now_secs: nat, max_age: u64) -> Result<
    EventFields,
    MediaWebhookError,
> {
    let parts = split_on(payload, '|');
    if parts.len() != 7 {
        Err(MediaWebhookError::InvalidEvent)
    } else {
        match parse_kind_spec(parts[2]) {
            None => Err(MediaWebhookError::InvalidEvent),
            Some(kind) => {
                let progress = if parts[3] == "-"@ {
                    Ok(None)
                } else {
                    match parse_u64_spec(parts[3]) {
                        Some(v) => if v <= 255 {
                            Ok(Some(v as u8))
                        } else {
                            Err(MediaWebhookError::InvalidEvent)
                        },
                        None => Err(MediaWebhookError::InvalidEvent),
                    }
                };
                match progress {
                    Err(e) => Err(e),
                    Ok(progress) => match parse_u64_spec(parts[5]) {
                        None => Err(MediaWebhookError::InvalidTimestamp),
                        Some(ts) => if ts > now_secs || now_secs - ts > max_age {
                            Err(MediaWebhookError::InvalidTimestamp)
                        } else {
                            match parse_u64_spec(parts[4]) {
                                Some(a) => if a <= u32::MAX {
                                    let f = (
                                        parts[0],
                                        parts[1],
                                        kind,
                                        progress,
                                        a as u32,
                                        ts,
                                        if parts[6].len() == 0 {
                                            None
                                        } else {
                                            Some(parts[6])
                                        },
                                    );
                                    if valid_fields(f) {
                                        Ok(f)
                                    } else {
                                        Err(MediaWebhookError::InvalidEvent)
                                    }
                                } else {
                                    Err(MediaWebhookError::InvalidEvent)
                                },
                                None => Err(MediaWebhookError::InvalidEvent),
                            }
                        },
                    },
                }
            },
        }
    }
}

/// What `verify` answers for `token` when the event ids in `seen` were already accepted.
pub open spec fn verify_spec(
    secret: Seq<u8>,
    max: nat,
    seen: Seq<Seq<char>>,
    token: Seq<char>,
    now_secs: nat,
    max_age: u64,
) -> Result<EventFields, MediaWebhookError> {
    match last_index(token, '.') {
        None => Err(MediaWebhookError::InvalidSignature),
        Some(k) => {
            let payload = token.take(k);
            let sig = token.skip(k + 1);
            if signature_text(secret, payload) != sig {
                Err(MediaWebhookError::InvalidSignature)
            } else if byte_len(payload) > max {
                Err(MediaWebhookError::PayloadTooLarge)
            } else {
                match parse_payload(payload, now_secs, max_age) {
                    Err(e) => Err(e),
                    Ok(f) => if seen.contains(f.0) {
                        Err(MediaWebhookError::Replay)
                    } else {
                        Ok(f)
                    },
                }
            }
        },
    }
}

fn kind_code(kind: MediaEventKind) -> (s: &'static str)
    ensures
        s@ == kind_text(kind),
{
    match kind {
        MediaEventKind::Queued => "queued",
        MediaEventKind::Progress => "progress",
        MediaEventKind::Succeeded => "succeeded",
        MediaEventKind::Failed => "failed",
        MediaEventKind::Cancelled => "cancelled",
    }
}

fn parse_kind(kind: &str) -> (r: Option<MediaEventKind>)
    ensures
        r == parse_kind_spec(kind@),
{
    if str_eq(kind, "queued") {
        Some(MediaEventKind::Queued)
    } else if str_eq(kind, "progress") {
        Some(MediaEventKind::Progress)
    } else if str_eq(kind, "succeeded") {
        Some(MediaEventKind::Succeeded)
    } else if str_eq(kind, "failed") {
        Some(MediaEventKind::Failed)
    } else if str_eq(kind, "cancelled") {
        Some(MediaEventKind::Cancelled)
    } else {
        None
    }
}

fn validate_event(event: &MediaWebhookEvent) -> (ok: bool)
    ensures
        ok == valid_fields(fields_of(*event)),
{
    let id = event.id.as_str();
    let task = event.task_id.as_str();
    if id.is_empty() || id.len() > 128 || str_contains_char(id, '|') || task.is_empty()
        || task.len() > 128 || str_contains_char(task, '|') || event.attempt == 0 {
        return false;
    }
    match event.progress {
        Some(p) => {
            if p > 100 {
                return false;
            }
        },
        None => {
            if event.kind == MediaEventKind::Progress {
                return false;
            }
        },
    }
    match &event.detail {
        Some(d) => {
            if d.as_str().len() > 1024 || str_contains_char(d.as_str(), '|') {
                return false;
            }
        },
        None => {},
    }
    true
}

fn payload_of(event: &MediaWebhookEvent) -> (s: String)
    ensures
        s@ == payload_text(fields_of(*event)),
{
    let mut s = owned(event.id.as_str());
    push_str(&mut s, "|");
    push_str(&mut s, event.task_id.as_str());
    push_str(&mut s, "|");
    push_str(&mut s, kind_code(event.kind));
    push_str(&mut s, "|");
    match event.progress {
        Some(p) => push_decimal(&mut s, p as u64),
        None => push_str(&mut s, "-"),
    }
    push_str(&mut s, "|");
    push_decimal(&mut s, event.attempt as u64);
    push_str(&mut s, "|");
    push_decimal(&mut s, event.timestamp);
    push_str(&mut s, "|");
    match &event.detail {
        Some(d) => push_str(&mut s, d.as_str()),
        None => {},
    }
    assert(s@ =~= payload_text(fields_of(*event)));
    s
}

proof fn lemma_no_pipe_digits(n: nat)
    ensures
        !decimal(n).contains('|'),
        decimal(n) != "-"@,
{
    lemma_parse_decimal_any(n);
    reveal_strlit("-");
    if decimal(n).contains('|') {
        let k = choose|k: int| 0 <= k < decimal(n).len() && decimal(n)[k] == '|';
        assert(is_ascii_digit(decimal(n)[k]));
    }
    assert(is_ascii_digit(decimal(n)[0]));
}

proof fn lemma_parse_decimal_any(n: nat)
    ensures
        all_digits(decimal(n)),
        decimal(n).len() >= 1,
{
    if n <= u64::MAX {
        lemma_parse_decimal(n);
    } else {
        lemma_parse_decimal_big(n);
    }
}

proof fn lemma_parse_decimal_big(n: nat)
    ensures
        all_digits(decimal(n)),
        decimal(n).len() >= 1,
    decreases n,
{
    if n >= 10 {
        lemma_parse_decimal_big(n / 10);
        let d = decimal(n);
        assert(forall|i: int| 0 <= i < d.len() - 1 ==> d[i] == decimal(n / 10)[i]);
        assert(is_ascii_digit(crate::text::digit_char(n % 10)));
    } else {
        assert(is_ascii_digit(crate::text::digit_char(n)));
    }
}

/// `x|rest` splits into `x` and the pieces of `rest` when `x` holds no `|`.
proof fn lemma_split_cons(x: Seq<char>, rest: Seq<char>)
    requires
        !x.contains('|'),
    ensures
        split_on(x + "|"@ + rest, '|') == seq![x] + split_on(rest, '|'),
{
    reveal_strlit("|");
    let s = x + "|"@ + rest;
    assert(s =~= x + (seq!['|'] + rest));
    lemma_first_index_after_pipe(x, seq!['|'] + rest);
    lemma_first_index(s, '|');
    assert(s.take(x.len() as int) =~= x);
    assert(s.skip(x.len() as int + 1) =~= rest);
}

proof fn lemma_first_index_after_pipe(x: Seq<char>, y: Seq<char>)
    requires
        !x.contains('|'),
        y.len() > 0,
        y[0] == '|',
    ensures
        crate::text::first_index(x + y, '|') == Some(x.len() as int),
    decreases x.len(),
{
    if x.len() > 0 {
        assert((x + y).drop_first() =~= x.drop_first() + y);
        assert(!x.drop_first().contains('|')) by {
            if x.drop_first().contains('|') {
                let k = choose|k: int|
                    0 <= k < x.drop_first().len() && x.drop_first()[k] == '|';
                assert(x[k + 1] == '|');
            }
        }
        assert((x + y)[0] == x[0]);
        lemma_first_index_after_pipe(x.drop_first(), y);
    } else {
        assert(x + y =~= y);
    }
}

proof fn lemma_split_single(x: Seq<char>)
    requires
        !x.contains('|'),
    ensures
        split_on(x, '|') == seq![x],
{
    lemma_first_index(x, '|');
}

proof fn lemma_kind_text(k: MediaEventKind)
    ensures
        !kind_text(k).contains('|'),
        parse_kind_spec(kind_text(k)) == Some(k),
{
    reveal_strlit("queued");
    reveal_strlit("progress");
    reveal_strlit("succeeded");
    reveal_strlit("failed");
    reveal_strlit("cancelled");
    let t = kind_text(k);
    if t.contains('|') {
        let i = choose|i: int| 0 <= i < t.len() && t[i] == '|';
    }
    assert("queued"@.len() == 6 && "queued"@[0] == 'q');
    assert("progress"@.len() == 8);
    assert("succeeded"@.len() == 9 && "succeeded"@[0] == 's');
    assert("failed"@.len() == 6 && "failed"@[0] == 'f');
    assert("cancelled"@.len() == 9 && "cancelled"@[0] == 'c');
}

/// Seven pieces free of `|`, joined by `|`, split back into the same pieces.
proof fn lemma_split7(
    x0: Seq<char>,
    x1: Seq<char>,
    x2: Seq<char>,
    x3: Seq<char>,
    x4: Seq<char>,
    x5: Seq<char>,
    x6: Seq<char>,
)
    requires
        !x0.contains('|'),
        !x1.contains('|'),
        !x2.contains('|'),
        !x3.contains('|'),
        !x4.contains('|'),
        !x5.contains('|'),
        !x6.contains('|'),
    ensures
        split_on(
            x0 + ("|"@ + (x1 + ("|"@ + (x2 + ("|"@ + (x3 + ("|"@ + (x4 + ("|"@ + (x5 + ("|"@
                + x6))))))))))),
            '|',
        ) == seq![x0, x1, x2, x3, x4, x5, x6],
{
    let p = "|"@;
    let r5 = x5 + (p + x6);
    let r4 = x4 + (p + r5);
    let r3 = x3 + (p + r4);
    let r2 = x2 + (p + r3);
    let r1 = x1 + (p + r2);
    let r0 = x0 + (p + r1);
    lemma_split_single(x6);
    assert(x5 + (p + x6) =~= x5 + p + x6);
    lemma_split_cons(x5, x6);
    assert(x4 + (p + r5) =~= x4 + p + r5);
    lemma_split_cons(x4, r5);
    assert(x3 + (p + r4) =~= x3 + p + r4);
    lemma_split_cons(x3, r4);
    assert(x2 + (p + r3) =~= x2 + p + r3);
    lemma_split_cons(x2, r3);
    assert(x1 + (p + r2) =~= x1 + p + r2);
    lemma_split_cons(x1, r2);
    assert(x0 + (p + r1) =~= x0 + p + r1);
    lemma_split_cons(x0, r1);
    assert(split_on(r0, '|') =~= seq![x0, x1, x2, x3, x4, x5, x6]);
}

proof fn lemma_payload_assoc(f: EventFields)
    ensures
        payload_text(f) == f.0 + ("|"@ + (f.1 + ("|"@ + (kind_text(f.2) + ("|"@ + (progress_text(
            f.3,
        ) + ("|"@ + (decimal(f.4 as nat) + ("|"@ + (decimal(f.5 as nat) + ("|"@ + match f.6 {
            Some(d) => d,
            None => Seq::empty(),
        }))))))))))),
{
    let d6 = match f.6 {
        Some(d) => d,
        None => Seq::<char>::empty(),
    };
    let p = "|"@;
    let a0 = f.0;
    let a1 = a0 + p;
    let a2 = a1 + f.1;
    let a3 = a2 + p;
    let a4 = a3 + kind_text(f.2);
    let a5 = a4 + p;
    let a6 = a5 + progress_text(f.3);
    let a7 = a6 + p;
    let a8 = a7 + decimal(f.4 as nat);
    let a9 = a8 + p;
    let a10 = a9 + decimal(f.5 as nat);
    let a11 = a10 + p;
    let b12 = d6;
    let b11 = p + b12;
    let b10 = decimal(f.5 as nat) + b11;
    let b9 = p + b10;
    let b8 = decimal(f.4 as nat) + b9;
    let b7 = p + b8;
    let b6 = progress_text(f.3) + b7;
    let b5 = p + b6;
    let b4 = kind_text(f.2) + b5;
    let b3 = p + b4;
    let b2 = f.1 + b3;
    let b1 = p + b2;
    vstd::seq_lib::lemma_concat_associative(a10, p, b12);
    vstd::seq_lib::lemma_concat_associative(a9, decimal(f.5 as nat), b11);
    vstd::seq_lib::lemma_concat_associative(a8, p, b10);
    vstd::seq_lib::lemma_concat_associative(a7, decimal(f.4 as nat), b9);
    vstd::seq_lib::lemma_concat_associative(a6, p, b8);
    vstd::seq_lib::lemma_concat_associative(a5, progress_text(f.3), b7);
    vstd::seq_lib::lemma_concat_associative(a4, p, b6);
    vstd::seq_lib::lemma_concat_associative(a3, kind_text(f.2), b5);
    vstd::seq_lib::lemma_concat_associative(a2, p, b4);
    vstd::seq_lib::lemma_concat_associative(a1, f.1, b3);
    vstd::seq_lib::lemma_concat_associative(a0, p, b2);
    assert(payload_text(f) == a11 + b12);
}

/// The payload of a valid event splits back into its seven fields.
proof fn lemma_payload_fields(f: EventFields)
    requires
        valid_fields(f),
    ensures
        split_on(payload_text(f), '|') == seq![
            f.0,
            f.1,
            kind_text(f.2),
            progress_text(f.3),
            decimal(f.4 as nat),
            decimal(f.5 as nat),
            match f.6 {
                Some(d) => d,
                None => Seq::empty(),
            },
        ],
{
    lemma_kind_text(f.2);
    lemma_no_pipe_digits(f.4 as nat);
    lemma_no_pipe_digits(f.5 as nat);
    reveal_strlit("-");
    if let Some(v) = f.3 {
        lemma_no_pipe_digits(v as nat);
    } else {
        assert(!"-"@.contains('|')) by {
            if "-"@.contains('|') {
                let k = choose|k: int| 0 <= k < "-"@.len() && "-"@[k] == '|';
            }
        }
    }
    lemma_payload_assoc(f);
    lemma_split7(
        f.0,
        f.1,
        kind_text(f.2),
        progress_text(f.3),
        decimal(f.4 as nat),
        decimal(f.5 as nat),
        match f.6 {
            Some(d) => d,
            None => Seq::empty(),
        },
    );
}

/// A payload made from a valid event reads back as that event, inside the time window.
proof fn lemma_payload_roundtrip(f: EventFields, now_secs: nat, max_age: u64)
    requires
        valid_fields(f),
        !(f.6 matches Some(d) && d.len() == 0),
        f.5 <= now_secs,
        now_secs - f.5 <= max_age,
    ensures
        parse_payload(payload_text(f), now_secs, max_age) == Ok::<_, MediaWebhookError>(f),
{
    lemma_payload_fields(f);
    lemma_kind_text(f.2);
    lemma_parse_decimal(f.4 as nat);
    lemma_parse_decimal(f.5 as nat);
    lemma_no_pipe_digits(f.4 as nat);
    if let Some(v) = f.3 {
        lemma_parse_decimal(v as nat);
        lemma_no_pipe_digits(v as nat);
    }
}

proof fn lemma_last_dot(payload: Seq<char>, sig: Seq<char>)
    requires
        forall|i: int| 0 <= i < sig.len() ==> base64url_char(#[trigger] sig[i]),
    ensures
        last_index(payload + "."@ + sig, '.') == Some(payload.len() as int),
    decreases sig.len(),
{
    reveal_strlit(".");
    let t = payload + "."@ + sig;
    if sig.len() == 0 {
        assert(t.last() == '.');
    } else {
        assert(base64url_char(sig.last()));
        assert(t.last() == sig.last());
        assert(t.drop_last() =~= payload + "."@ + sig.drop_last());
        assert forall|i: int| 0 <= i < sig.drop_last().len() implies base64url_char(
            #[trigger] sig.drop_last()[i],
        ) by {
            assert(sig.drop_last()[i] == sig[i]);
        }
        lemma_last_dot(payload, sig.drop_last());
    }
}

impl MediaWebhookSigner {
    pub closed spec fn secret(&self) -> Seq<u8> {
        self.secret@
    }

    /// Ids of the events already accepted.
    pub closed spec fn seen(&self) -> Seq<Seq<char>> {
        views(self.seen@)
    }

    pub closed spec fn max_payload(&self) -> nat {
        self.max_payload_bytes as nat
    }

    /// A signer for a secret of at least 16 bytes and payloads of 1 to 1 MiB.
    pub fn new(secret: &[u8], max_payload_bytes: usize) -> (r: Result<
        MediaWebhookSigner,
        MediaWebhookError,
    >)
        ensures
            r is Ok <==> secret@.len() >= 16 && 1 <= max_payload_bytes <= 1_048_576,
            r matches Err(e) ==> e == MediaWebhookError::InvalidSecret,
            r matches Ok(s) ==> s.secret() == secret@ && s.seen().len() == 0 && s.max_payload()
                == max_payload_bytes,
    {
        if secret.len() < 16 || max_payload_bytes == 0 || max_payload_bytes > 1_048_576 {
            return Err(MediaWebhookError::InvalidSecret);
        }
        let mut copy: Vec<u8> = Vec::new();
        let mut i: usize = 0;
        while i < secret.len()
            invariant
                i <= secret@.len(),
                copy@ == secret@.take(i as int),
            decreases secret@.len() - i,
        {
            copy.push(secret[i]);
            i = i + 1;
            assert(copy@ =~= secret@.take(i as int));
        }
        assert(secret@.take(secret@.len() as int) =~= secret@);
        let seen: Vec<String> = Vec::new();
        assert(views(seen@) =~= Seq::<Seq<char>>::empty());
        Ok(MediaWebhookSigner { secret: copy, seen, max_payload_bytes })
    }

    /// Signs `event` as `payload.signature`. A token it returns verifies, within its time
    /// window and before its id was seen, as the same event (unless its detail is empty).
    pub fn encode(&self, event: &MediaWebhookEvent) -> (r: Result<String, MediaWebhookError>)
        ensures
            match r {
                Ok(t) => encode_spec(self.secret(), self.max_payload(), fields_of(*event)) == Ok::<
                    _,
                    MediaWebhookError,
                >(t@),
                Err(e) => encode_spec(self.secret(), self.max_payload(), fields_of(*event))
                    == Err::<Seq<char>, _>(e),
            },
            r matches Ok(t) ==> forall|seen: Seq<Seq<char>>, now_secs: nat, max_age: u64|
                !(event.detail matches Some(d) && d@.len() == 0) && !seen.contains(event.id@)
                    && event.timestamp <= now_secs && now_secs - event.timestamp <= max_age
                    ==> #[trigger] verify_spec(
                    self.secret(),
                    self.max_payload(),
                    seen,
                    t@,
                    now_secs,
                    max_age,
                ) == Ok::<_, MediaWebhookError>(fields_of(*event)),
    {
        if !validate_event(event) {
            return Err(MediaWebhookError::InvalidEvent);
        }
        let payload = payload_of(event);
        if payload.as_str().len() > self.max_payload_bytes {
            return Err(MediaWebhookError::PayloadTooLarge);
        }
        let tag = match hmac_sha256(self.secret.as_slice(), payload.as_str().as_bytes()) {
            Some(t) => t,
            None => {
                return Err(MediaWebhookError::InvalidSecret);
            },
        };
        let sig = base64url_encode(tag.as_slice());
        let mut token = payload.clone();
        push_str(&mut token, ".");
        push_str(&mut token, sig.as_str());
        proof {
            let f = fields_of(*event);
            let p = payload_text(f);
            assert(token@ =~= p + "."@ + sig@);
            lemma_last_dot(p, sig@);
            assert(token@.take(p.len() as int) =~= p);
            reveal_strlit(".");
            assert(token@.skip(p.len() as int + 1) =~= sig@);
            assert forall|seen: Seq<Seq<char>>, now_secs: nat, max_age: u64|
                !(event.detail matches Some(d) && d@.len() == 0) && !seen.contains(event.id@)
                    && event.timestamp <= now_secs && now_secs - event.timestamp
                    <= max_age implies #[trigger] verify_spec(
                self.secret(),
                self.max_payload(),
                seen,
                token@,
                now_secs,
                max_age,
            ) == Ok::<_, MediaWebhookError>(f) by {
                lemma_payload_roundtrip(f, now_secs, max_age);
            }
        }
        Ok(token)
    }

    /// Checks a token's signature, size, fields and time window, and refuses an event id
    /// already accepted; an accepted id is remembered.
    pub fn verify(&mut self, token: &str, now: SystemTime, max_age_secs: u64) -> (r: Result<
        MediaWebhookEvent,
        MediaWebhookError,
    >)
        ensures
            match r {
                Ok(e) => verify_spec(
                    old(self).secret(),
                    old(self).max_payload(),
                    old(self).seen(),
                    token@,
                    now@ / (NANOS_PER_SEC as nat),
                    max_age_secs,
                ) == Ok::<_, MediaWebhookError>(fields_of(e)),
                Err(e) => verify_spec(
                    old(self).secret(),
                    old(self).max_payload(),
                    old(self).seen(),
                    token@,
                    now@ / (NANOS_PER_SEC as nat),
                    max_age_secs,
                ) == Err::<EventFields, _>(e),
            },
            r matches Ok(e) ==> final(self).seen() == old(self).seen().push(e.id@),
            r is Err ==> final(self).seen() == old(self).seen(),
            final(self).secret() == old(self).secret(),
            final(self).max_payload() == old(self).max_payload(),
    {
        let v = chars_of(token);
        let k = match rfind_char(&v, '.') {
            None => {
                return Err(MediaWebhookError::InvalidSignature);
            },
            Some(k) => k,
        };
        let payload = substring(&v, 0, k);
        let sig = substring(&v, k + 1, v.len());
        assert(payload@ =~= token@.take(k as int));
        assert(sig@ =~= token@.skip(k + 1));
        let signed = match base64url_decode(sig.as_str()) {
            None => false,
            Some(provided) => {
                match hmac_sha256_verify(
                    self.secret.as_slice(),
                    payload.as_str().as_bytes(),
                    provided.as_slice(),
                ) {
                    None => {
                        return Err(MediaWebhookError::InvalidSecret);
                    },
                    Some(b) => b,
                }
            },
        };
        if !signed {
            return Err(MediaWebhookError::InvalidSignature);
        }
        if payload.as_str().len() > self.max_payload_bytes {
            return Err(MediaWebhookError::PayloadTooLarge);
        }
        let event = match self.parse_fields(payload.as_str(), now, max_age_secs) {
            Ok(e) => e,
            Err(e) => {
                return Err(e);
            },
        };
        if contains_str(&self.seen, event.id.as_str()) {
            return Err(MediaWebhookError::Replay);
        }
        self.seen.push(event.id.clone());
        assert(views(self.seen@) =~= views(old(self).seen@).push(event.id@));
        Ok(event)
    }

    fn parse_fields(&self, payload: &str, now: SystemTime, max_age_secs: u64) -> (r: Result<
        MediaWebhookEvent,
        MediaWebhookError,
    >)
        ensures
            match r {
                Ok(e) => parse_payload(payload@, now@ / (NANOS_PER_SEC as nat), max_age_secs)
                    == Ok::<_, MediaWebhookError>(fields_of(e)),
                Err(e) => parse_payload(payload@, now@ / (NANOS_PER_SEC as nat), max_age_secs)
                    == Err::<EventFields, _>(e),
            },
    {
        let parts = split_str(payload, '|');
        let ghost ps = views(parts@);
        if parts.len() != 7 {
            return Err(MediaWebhookError::InvalidEvent);
        }
        assert(ps[2] == parts@[2]@);
        assert(ps[3] == parts@[3]@);
        assert(ps[4] == parts@[4]@);
        assert(ps[5] == parts@[5]@);
        assert(ps[6] == parts@[6]@);
        assert(ps[0] == parts@[0]@);
        assert(ps[1] == parts@[1]@);
        let kind = match parse_kind(parts[2].as_str()) {
            None => {
                return Err(MediaWebhookError::InvalidEvent);
            },
            Some(k) => k,
        };
        let progress = if str_eq(parts[3].as_str(), "-") {
            None
        } else {
            match parse_u64(parts[3].as_str()) {
                Some(v) => {
                    if v <= 255 {
                        Some(v as u8)
                    } else {
                        return Err(MediaWebhookError::InvalidEvent);
                    }
                },
                None => {
                    return Err(MediaWebhookError::InvalidEvent);
                },
            }
        };
        let timestamp = match parse_u64(parts[5].as_str()) {
            None => {
                return Err(MediaWebhookError::InvalidTimestamp);
            },
            Some(t) => t,
        };
        let current = now.since_epoch().as_secs();
        if timestamp > current || current - timestamp > max_age_secs {
            return Err(MediaWebhookError::InvalidTimestamp);
        }
        let attempt = match parse_u64(parts[4].as_str()) {
            Some(a) => {
                if a <= 4294967295 {
                    a as u32
                } else {
                    return Err(MediaWebhookError::InvalidEvent);
                }
            },
            None => {
                return Err(MediaWebhookError::InvalidEvent);
            },
        };
        let detail = if parts[6].as_str().is_empty() {
            None
        } else {
            Some(parts[6].clone())
        };
        let event = MediaWebhookEvent {
            id: parts[0].clone(),
            task_id: parts[1].clone(),
            kind,
            progress,
            attempt,
            timestamp,
            detail,
        };
        if !validate_event(&event) {
            return Err(MediaWebhookError::InvalidEvent);
        }
        Ok(event)
    }
}

} // verus!
