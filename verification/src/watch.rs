//! The watch-and-record engine: per-tick decisions of the clipboard polling
//! loop.
//!
//! The loop itself (reading the clipboard, sleeping, writing files and the
//! clipboard) runs outside the library and is driven by these functions: per
//! tick it samples the clipboard and the clock and calls `tick`; where the
//! outcome asks for a vault write it performs it and hands the result back to
//! `commit_image`; where it asks for a clipboard write it performs it (arming
//! the suppression guard first, as `SuppressionState` provides) and reports
//! success through `note_clipboard_written`.

use crate::hash::{fingerprint_of, hash_data};
use crate::history::{
    has_fingerprint, spec_add_image, spec_add_text, ClipboardItem, History, HistoryModel,
    ItemModel,
};
use crate::suppress::{
    elapsed_ms, should_ignore_spec, take_skip_spec, SuppressionModel, SuppressionState,
};
use crate::text::{
    contains_seq, contains_sub, starts_with_seq, starts_with_str, str_eq, trim_spec, trim_str,
};
use crate::vault::{png_reencode, prepare_store, vault_file_name_bytes};
use crate::clock::now_stamp;
use vstd::utf8::is_ascii_chars;
use vstd::prelude::*;
use vstd::string::StringSliceAdditionalSpecFns;
use vstd::string::StringExecFns;

verus! {

/// A text candidate is accepted when, after trimming, it is non-empty, is
/// not a markup-wrapped image-only representation, and is not the degenerate
/// coordinate placeholder.
pub open spec fn accepted_text_spec(s: Seq<char>) -> bool {
    let t = trim_spec(s);
    &&& t.len() > 0
    &&& !(starts_with_seq(t, "<meta"@) && contains_seq(t, "<img"@))
    &&& t != "0,0"@
}

/// Rejects empty/whitespace-only payloads and known placeholder noise.
pub fn accept_text_candidate(s: &str) -> (r: bool)
    ensures
        r == accepted_text_spec(s@),
{
    let t = trim_str(s);
    if t.unicode_len() == 0 {
        return false;
    }
    if starts_with_str(t, "<meta") && contains_sub(t, "<img") {
        return false;
    }
    if str_eq(t, "0,0") {
        return false;
    }
    true
}

/// Mathematical model of the watch state.
#[verifier::ext_equal]
pub ghost struct WatchModel {
    pub guard: SuppressionModel,
    pub last_text_hash: Option<u64>,
    pub last_image_hash: Option<u64>,
    pub last_text_change: u64,
    pub last_image_change: u64,
    pub last_item: Option<ItemModel>,
    pub debounce_ms: u64,
    pub suppress_ms: u64,
    pub image_dir: Seq<char>,
}

/// Mutable state of the watch loop: the suppression guard, the last accepted
/// fingerprints, the debounce clocks and the last item written.
pub struct WatchState {
    /// Self-write suppression, shared conceptually with every clipboard
    /// writer.
    pub guard: SuppressionState,
    /// Fingerprint of the last accepted text payload.
    pub last_text_hash: Option<u64>,
    /// Fingerprint of the last accepted image payload.
    pub last_image_hash: Option<u64>,
    /// When the last text payload was accepted (milliseconds).
    pub last_text_change: u64,
    /// When the last image payload was accepted (milliseconds).
    pub last_image_change: u64,
    /// The last item successfully written to the clipboard.
    pub last_item: Option<ClipboardItem>,
    /// Minimum elapsed time between accepted changes of one payload kind.
    pub debounce_ms: u64,
    /// Width of the self-write suppression window.
    pub suppress_ms: u64,
    /// Directory that holds the vault files.
    pub image_dir: String,
}

pub open spec fn opt_item_view(o: Option<ClipboardItem>) -> Option<ItemModel> {
    match o {
        Some(it) => Some(it@),
        None => None,
    }
}

impl View for WatchState {
    type V = WatchModel;

    open spec fn view(&self) -> WatchModel {
        WatchModel {
            guard: self.guard@,
            last_text_hash: self.last_text_hash,
            last_image_hash: self.last_image_hash,
            last_text_change: self.last_text_change,
            last_image_change: self.last_image_change,
            last_item: opt_item_view(self.last_item),
            debounce_ms: self.debounce_ms,
            suppress_ms: self.suppress_ms,
            image_dir: self.image_dir@,
        }
    }
}

/// The recommended debounce delay between accepted changes.
pub const DEFAULT_DEBOUNCE_MS: u64 = 500;

/// The recommended self-write suppression window.
pub const DEFAULT_SUPPRESS_MS: u64 = 500;

impl WatchState {
    /// Fresh watch state: nothing accepted yet, both debounce clocks set to
    /// `now_ms`, recommended delays.
    pub fn new(image_dir: String, now_ms: u64) -> (s: WatchState)
        ensures
            s@ == (WatchModel {
                guard: SuppressionModel { ignore_since: None, skip_hash: None },
                last_text_hash: None,
                last_image_hash: None,
                last_text_change: now_ms,
                last_image_change: now_ms,
                last_item: None,
                debounce_ms: DEFAULT_DEBOUNCE_MS as u64,
                suppress_ms: DEFAULT_SUPPRESS_MS as u64,
                image_dir: image_dir@,
            }),
    {
        WatchState {
            guard: SuppressionState::new(),
            last_text_hash: None,
            last_image_hash: None,
            last_text_change: now_ms,
            last_image_change: now_ms,
            last_item: None,
            debounce_ms: DEFAULT_DEBOUNCE_MS,
            suppress_ms: DEFAULT_SUPPRESS_MS,
            image_dir,
        }
    }
}

/// A text payload is committed when it passes the candidate filter, differs
/// from the last accepted text fingerprint, carries a fingerprint not yet in
/// the history, and the debounce delay has elapsed.
pub open spec fn text_accept(m: WatchModel, h: HistoryModel, t: Seq<char>, now: u64) -> bool {
    &&& accepted_text_spec(t)
    &&& Some(fingerprint_of(vstd::utf8::encode_utf8(t))) != m.last_text_hash
    &&& !has_fingerprint(h.entries, fingerprint_of(vstd::utf8::encode_utf8(t)))
    &&& elapsed_ms(m.last_text_change, now) >= m.debounce_ms
}

/// Watch state after committing a text payload.
pub open spec fn spec_text_commit(m: WatchModel, t: Seq<char>, now: u64) -> WatchModel {
    WatchModel {
        last_text_hash: Some(fingerprint_of(vstd::utf8::encode_utf8(t))),
        last_text_change: now,
        ..m
    }
}

/// An image payload is accepted when it does not match the armed one-shot
/// skip, differs from the last accepted image fingerprint, carries a
/// fingerprint not yet in the history, and the debounce delay has elapsed.
pub open spec fn image_accept(m: WatchModel, h: HistoryModel, ih: u64, now: u64) -> bool {
    &&& m.guard.skip_hash != Some(ih)
    &&& Some(ih) != m.last_image_hash
    &&& !has_fingerprint(h.entries, ih)
    &&& elapsed_ms(m.last_image_change, now) >= m.debounce_ms
}

/// Watch state after the image branch ran: the one-shot skip is consumed
/// whenever an image was sampled, and on acceptance the image fingerprint
/// and debounce clock are updated.
pub open spec fn spec_image_check(
    m: WatchModel,
    h: HistoryModel,
    image: Option<Seq<u8>>,
    now: u64,
) -> WatchModel {
    match image {
        None => m,
        Some(b) => {
            let taken = WatchModel { guard: take_skip_spec(m.guard), ..m };
            if image_accept(m, h, fingerprint_of(b), now) {
                WatchModel {
                    last_image_hash: Some(fingerprint_of(b)),
                    last_image_change: now,
                    ..taken
                }
            } else {
                taken
            }
        },
    }
}

/// A binary payload accepted by `tick`, canonicalised and ready for the
/// vault; hand it back through `commit_image` once the file is written.
pub struct PendingImage {
    /// Full path of the vault file: the vault directory, a slash, the
    /// canonical file name.
    pub path: String,
    /// The canonical PNG bytes to write there.
    pub png: Vec<u8>,
    /// Fingerprint of the sampled payload.
    pub hash: u64,
}

/// What one tick decided.
pub struct TickOutcome {
    /// The sample arrived inside the self-write suppression window and was
    /// ignored whole.
    pub suppressed: bool,
    /// The clipboard was empty though something had been written: re-write
    /// this item (self-heal after an external clear).
    pub restore: Option<ClipboardItem>,
    /// A text payload was committed to the history: write it through to the
    /// clipboard and persist the history.
    pub set_clipboard: Option<ClipboardItem>,
    /// An image payload was accepted and canonicalised: write the file, then
    /// call `commit_image`.
    pub pending_image: Option<PendingImage>,
    /// An image payload was accepted but its bytes do not decode as an
    /// image; nothing was recorded.
    pub image_decode_failed: bool,
}

pub open spec fn opt_text_view(o: Option<String>) -> Option<Seq<char>> {
    match o {
        Some(s) => Some(s@),
        None => None,
    }
}

pub open spec fn opt_data_view(o: Option<Vec<u8>>) -> Option<Seq<u8>> {
    match o {
        Some(v) => Some(v@),
        None => None,
    }
}

/// The empty-clipboard restore condition: nothing sampled, but the engine
/// had written something before.
pub open spec fn restore_condition(
    m: WatchModel,
    text: Option<Seq<char>>,
    image: Option<Seq<u8>>,
) -> bool {
    text is None && image is None && m.last_item is Some
}

/// Everything the main branch of one tick guarantees: how the text branch
/// changed the history and the state (`ts` is the capture time the clock
/// produced), how the image branch consumed the one-shot skip and what it
/// accepted, and what the outcome fields carry.
pub open spec fn main_branch_post(
    mo: WatchModel,
    ho: HistoryModel,
    mf: WatchModel,
    hf: HistoryModel,
    text: Option<Seq<char>>,
    image: Option<Seq<u8>>,
    now: u64,
    r: TickOutcome,
    ts: u64,
) -> bool {
    let committed = text matches Some(t) && text_accept(mo, ho, t, now);
    let m1 = if committed {
        spec_text_commit(mo, text.unwrap(), now)
    } else {
        mo
    };
    let h1 = if committed {
        spec_add_text(ho, text.unwrap(), ts)
    } else {
        ho
    };
    &&& hf == h1
    &&& (committed ==> opt_item_view(r.set_clipboard) == Some(
        ItemModel::Text(text.unwrap()),
    ))
    &&& (!committed ==> r.set_clipboard is None)
    &&& mf == spec_image_check(m1, h1, image, now)
    &&& match r.pending_image {
        Some(p) => {
            let b = image.unwrap();
            &&& image is Some
            &&& image_accept(m1, h1, fingerprint_of(b), now)
            &&& p.hash == fingerprint_of(b)
            &&& png_reencode(b) == Some(p.png@)
            &&& exists|stamp: Seq<char>|
                vstd::utf8::encode_utf8(p.path@) == vstd::utf8::encode_utf8(m1.image_dir)
                    + seq![47u8] + vault_file_name_bytes(
                    p.hash,
                    vstd::utf8::encode_utf8(stamp),
                )
        },
        None => image matches Some(b) ==> !image_accept(m1, h1, fingerprint_of(b), now)
            || png_reencode(b) is None,
    }
    &&& r.image_decode_failed == (image matches Some(b) && image_accept(
        m1,
        h1,
        fingerprint_of(b),
        now,
    ) && png_reencode(b) is None)
}

/// One tick of the watch loop, clipboard sample and clock injected.
///
/// In order: a sample inside the suppression window is ignored whole; an
/// empty clipboard after a successful write asks for a restore; otherwise
/// the text branch and the image branch each decide independently whether
/// their payload is a genuine new entry. A committed text payload is already
/// in the history when `tick` returns; an accepted image payload is returned
/// as a `PendingImage` and enters the history in `commit_image`, after the
/// caller wrote the vault file.
pub fn tick(
    state: &mut WatchState,
    history: &mut History,
    text: Option<String>,
    image: Option<Vec<u8>>,
    now_ms: u64,
) -> (r: TickOutcome)
    requires
        old(history).wf(),
    ensures
        final(history).wf(),
        r.suppressed == should_ignore_spec(old(state)@.guard, now_ms, old(state)@.suppress_ms),
        r.suppressed ==> {
            &&& final(state)@ == old(state)@
            &&& final(history)@ == old(history)@
            &&& r.restore is None
            &&& r.set_clipboard is None
            &&& r.pending_image is None
        },
        !r.suppressed && restore_condition(old(state)@, opt_text_view(text), opt_data_view(image))
            ==> {
            &&& final(state)@ == old(state)@
            &&& final(history)@ == old(history)@
            &&& opt_item_view(r.restore) == old(state)@.last_item
            &&& r.set_clipboard is None
            &&& r.pending_image is None
        },
        !r.suppressed && !restore_condition(old(state)@, opt_text_view(text), opt_data_view(image))
            ==> r.restore is None && exists|ts: u64|
            main_branch_post(
                old(state)@,
                old(history)@,
                final(state)@,
                final(history)@,
                opt_text_view(text),
                opt_data_view(image),
                now_ms,
                r,
                ts,
            ),
{
    let suppressed = state.guard.should_ignore_recently(now_ms, state.suppress_ms);
    if suppressed {
        return TickOutcome {
            suppressed: true,
            restore: None,
            set_clipboard: None,
            pending_image: None,
            image_decode_failed: false,
        };
    }
    if text.is_none() && image.is_none() && state.last_item.is_some() {
        let restore = match &state.last_item {
            Some(it) => Some(clone_item(it)),
            None => None,
        };
        return TickOutcome {
            suppressed: false,
            restore,
            set_clipboard: None,
            pending_image: None,
            image_decode_failed: false,
        };
    }
    // Text branch.
    let mut set_clipboard: Option<ClipboardItem> = None;
    let ghost mut ts_witness: u64 = 0;
    let ghost committed_spec: bool = (opt_text_view(text) matches Some(t) && text_accept(
        old(state)@,
        old(history)@,
        t,
        now_ms,
    ));
    match &text {
        None => {},
        Some(t) => {
            let accept = accept_text_candidate(t.as_str());
            if accept {
                let th = hash_data(t.as_str().as_bytes());
                let last_matches = match state.last_text_hash {
                    Some(lh) => lh == th,
                    None => false,
                };
                let elapsed: u64 = if now_ms >= state.last_text_change {
                    now_ms - state.last_text_change
                } else {
                    0
                };
                if !last_matches && !history.contains_fingerprint(th) && elapsed
                    >= state.debounce_ms {
                    proof {
                        assert(text_accept(old(state)@, old(history)@, t@, now_ms));
                    }
                    let item_text = t.clone();
                    history.add_text(item_text);
                    proof {
                        ts_witness = choose|ts: u64|
                            history@ == spec_add_text(old(history)@, t@, ts);
                        assert(history@ == spec_add_text(old(history)@, t@, ts_witness));
                    }
                    state.last_text_hash = Some(th);
                    state.last_text_change = now_ms;
                    set_clipboard = Some(ClipboardItem::Text(t.clone()));
                    proof {
                        assert(committed_spec);
                        assert(state@ =~= spec_text_commit(old(state)@, t@, now_ms));
                    }
                } else {
                    proof {
                        assert(!text_accept(old(state)@, old(history)@, t@, now_ms));
                        assert(!committed_spec);
                    }
                }
            } else {
                proof {
                    assert(!text_accept(old(state)@, old(history)@, t@, now_ms));
                    assert(!committed_spec);
                }
            }
        },
    }
    let ghost m1 = state@;
    let ghost h1 = history@;
    proof {
        if committed_spec {
            assert(m1 =~= spec_text_commit(old(state)@, opt_text_view(text).unwrap(), now_ms));
            assert(h1 == spec_add_text(old(history)@, opt_text_view(text).unwrap(), ts_witness));
        } else {
            assert(m1 == old(state)@);
            assert(h1 == old(history)@);
        }
    }
    // Image branch.
    let mut pending_image: Option<PendingImage> = None;
    let mut image_decode_failed = false;
    match &image {
        None => {},
        Some(data) => {
            let skip = state.guard.take_skip_image_hash();
            let ih = hash_data(data.as_slice());
            let skip_matches = match skip {
                Some(sk) => sk == ih,
                None => false,
            };
            let last_matches = match state.last_image_hash {
                Some(lh) => lh == ih,
                None => false,
            };
            let elapsed: u64 = if now_ms >= state.last_image_change {
                now_ms - state.last_image_change
            } else {
                0
            };
            if !skip_matches && !last_matches && !history.contains_fingerprint(ih) && elapsed
                >= state.debounce_ms {
                proof {
                    assert(image_accept(m1, h1, ih, now_ms));
                }
                state.last_image_hash = Some(ih);
                state.last_image_change = now_ms;
                proof {
                    assert(state@ =~= spec_image_check(m1, h1, opt_data_view(image), now_ms));
                }
                let stamp = now_stamp();
                match prepare_store(data.as_slice(), ih, stamp.as_str()) {
                    Ok(prepared) => {
                        let mut path = clone_string(&state.image_dir);
                        path.append("/");
                        let path = path.concat(prepared.file_name.as_str());
                        proof {
                            assert(vstd::utf8::encode_utf8(path@) == vstd::utf8::encode_utf8(
                                m1.image_dir,
                            ) + seq![47u8] + vault_file_name_bytes(
                                ih,
                                vstd::utf8::encode_utf8(stamp@),
                            )) by {
                                lemma_encode_concat(state@.image_dir, "/"@);
                                lemma_encode_concat(state@.image_dir + "/"@, prepared.file_name@);
                                assert(vstd::utf8::encode_utf8("/"@) =~= seq![47u8]) by {
                                    reveal_strlit("/");
                                    assert(is_ascii_chars("/"@));
                                    vstd::utf8::is_ascii_chars_encode_utf8("/"@);
                                }
                            }
                        }
                        pending_image = Some(PendingImage { path, png: prepared.png, hash: ih });
                        proof {
                            let p = pending_image.unwrap();
                            assert(vstd::utf8::encode_utf8(p.path@) == vstd::utf8::encode_utf8(
                                m1.image_dir,
                            ) + seq![47u8] + vault_file_name_bytes(
                                p.hash,
                                vstd::utf8::encode_utf8(stamp@),
                            ));
                            assert(exists|st: Seq<char>|
                                vstd::utf8::encode_utf8(p.path@) == vstd::utf8::encode_utf8(
                                    m1.image_dir,
                                ) + seq![47u8] + vault_file_name_bytes(
                                    p.hash,
                                    vstd::utf8::encode_utf8(st),
                                ));
                        }
                    },
                    Err(_) => {
                        image_decode_failed = true;
                    },
                }
            } else {
                proof {
                    assert(!image_accept(m1, h1, ih, now_ms));
                    assert(state@ =~= spec_image_check(m1, h1, opt_data_view(image), now_ms));
                }
            }
        },
    }
    let outcome = TickOutcome {
        suppressed: false,
        restore: None,
        set_clipboard,
        pending_image,
        image_decode_failed,
    };
    proof {
        assert(state@ =~= spec_image_check(m1, h1, opt_data_view(image), now_ms));
        assert(main_branch_post(
            old(state)@,
            old(history)@,
            state@,
            history@,
            opt_text_view(text),
            opt_data_view(image),
            now_ms,
            outcome,
            ts_witness,
        ));
    }
    outcome
}

/// UTF-8 encoding distributes over concatenation of character sequences.
proof fn lemma_encode_concat(a: Seq<char>, b: Seq<char>)
    ensures
        vstd::utf8::encode_utf8(a + b) == vstd::utf8::encode_utf8(a) + vstd::utf8::encode_utf8(b),
    decreases a.len(),
{
    if a.len() == 0 {
        assert(a + b =~= b);
        assert(vstd::utf8::encode_utf8(a) =~= Seq::<u8>::empty());
        assert(Seq::<u8>::empty() + vstd::utf8::encode_utf8(b) =~= vstd::utf8::encode_utf8(b));
    } else {
        lemma_encode_concat(a.drop_first(), b);
        assert((a + b).drop_first() =~= a.drop_first() + b);
        assert((a + b)[0] == a[0]);
        assert(vstd::utf8::encode_scalar(a[0] as u32) + (vstd::utf8::encode_utf8(a.drop_first())
            + vstd::utf8::encode_utf8(b)) =~= (vstd::utf8::encode_scalar(a[0] as u32)
            + vstd::utf8::encode_utf8(a.drop_first())) + vstd::utf8::encode_utf8(b));
    }
}

/// A field-by-field copy whose model equals this item's.
fn clone_item(it: &ClipboardItem) -> (r: ClipboardItem)
    ensures
        r@ == it@,
{
    match it {
        ClipboardItem::Text(s) => ClipboardItem::Text(clone_string(s)),
        ClipboardItem::Image(p) => ClipboardItem::Image(clone_string(p)),
    }
}

fn clone_string(s: &String) -> (r: String)
    ensures
        r@ == s@,
{
    String::from_str(s.as_str())
}

/// Records an accepted image payload once its vault file is written: inserts
/// it (vault-wide duplicate guard included), arms the one-shot skip with its
/// fingerprint and opens a suppression window, so the write-through is not
/// re-ingested.
pub fn commit_image(
    state: &mut WatchState,
    history: &mut History,
    path: String,
    image_hash: u64,
    now_ms: u64,
) -> (r: ClipboardItem)
    requires
        old(history).wf(),
    ensures
        final(history).wf(),
        exists|ts: u64| final(history)@ == spec_add_image(old(history)@, path@, image_hash, ts),
        final(state)@ == (WatchModel {
            guard: SuppressionModel { ignore_since: Some(now_ms), skip_hash: Some(image_hash) },
            ..old(state)@
        }),
        r@ == ItemModel::Image(path@),
{
    let item = ClipboardItem::Image(clone_string(&path));
    history.add_image(path, image_hash);
    state.guard.set_skip_image_hash(image_hash);
    state.guard.set_ignore_flag(now_ms);
    item
}

/// Records that an item was successfully written to the clipboard, so an
/// external clear can be healed by re-writing it.
pub fn note_clipboard_written(state: &mut WatchState, item: ClipboardItem)
    ensures
        final(state)@ == (WatchModel { last_item: Some(item@), ..old(state)@ }),
{
    state.last_item = Some(item);
}

} // verus!
