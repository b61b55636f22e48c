//! Events of a game, and how they read on the console.

use vstd::prelude::*;

use crate::ieee::{lemma_double_order_is_numeric, Double};
use crate::scoring::Scoring;
use crate::text::{
    append_text, decimal, join, joined, pad_left, pad_right, padded_left, padded_right, texts,
    write_decimal,
};

verus! {

/// Ranks up to which a guess is hot, as bit patterns: 3, 10, 50 and 200.
pub const HOT_RANKS: [u64; 4] = [
    0x4008_0000_0000_0000,
    0x4024_0000_0000_0000,
    0x4049_0000_0000_0000,
    0x4069_0000_0000_0000,
];

/// What happens in a game.
pub enum Event {
    Init {
        day: Option<u32>,
        mode: String,
        game: String,
        model: String,
        plausible: usize,
        opener: Option<String>,
    },
    /// The engine is waiting for the user to choose the starting word.
    NeedStart { message: Option<String> },
    Probe {
        n: u32,
        word: String,
        forced: bool,
        entropy: Double,
        /// The entropy in decimal.
        bits_text: String,
        buckets: usize,
        probes: usize,
        candidates: usize,
        think_ms: u64,
    },
    Result {
        /// The score, spelled out for a human: degrees for Cémantix, a rank elsewhere.
        score_text: String,
        emoji: &'static str,
        percentile: Option<u32>,
        alive_before: usize,
        alive_after: usize,
        top: Vec<String>,
        tol: String,
        restricted: bool,
        relaxed: bool,
        filter_ms: u64,
        solvers: Option<u64>,
    },
    Unknown { word: String, message: String },
    Solved {
        word: String,
        guesses: u32,
        total_ms: u64,
    },
}

/// Cémantix's own thermometer.
pub open spec fn emoji_for(score: Double, p: Option<u32>) -> Seq<char> {
    match p {
        Some(x) => if x == 1000 {
            "🥳"@
        } else if x >= 999 {
            "😱"@
        } else if x >= 990 {
            "🔥"@
        } else if x >= 900 {
            "🥵"@
        } else {
            "😎"@
        },
        None => if (Double { bits: 0 }).below(score) {
            "🥶"@
        } else {
            "🧊"@
        },
    }
}

/// Cémantix's own thermometer: the ‰ rank when the server gives one, else the sign.
pub fn emoji(score: Double, p: Option<u32>) -> (r: &'static str)
    ensures
        r@ == emoji_for(score, p),
{
    match p {
        Some(x) => {
            if x == 1000 {
                "🥳"
            } else if x >= 999 {
                "😱"
            } else if x >= 990 {
                "🔥"
            } else if x >= 900 {
                "🥵"
            } else {
                "😎"
            }
        },
        None => {
            if (Double { bits: 0 }).lt(score) {
                "🥶"
            } else {
                "🧊"
            }
        },
    }
}

/// The thermometer of a rank game.
pub open spec fn emoji_rank_for(local_rank: Option<Double>) -> Seq<char> {
    match local_rank {
        None => "🧊"@,
        Some(r) => if r.at_most(Double { bits: HOT_RANKS[0] }) {
            "😱"@
        } else if r.at_most(Double { bits: HOT_RANKS[1] }) {
            "🔥"@
        } else if r.at_most(Double { bits: HOT_RANKS[2] }) {
            "🥵"@
        } else if r.at_most(Double { bits: HOT_RANKS[3] }) {
            "😎"@
        } else {
            "🥶"@
        },
    }
}

/// Same idea for a rank game, where the score is a rank: the closer the guess sits to the
/// secret, the hotter. `None` marks the scores that only say "far away".
pub fn emoji_rank(local_rank: Option<Double>) -> (r: &'static str)
    ensures
        r@ == emoji_rank_for(local_rank),
{
    match local_rank {
        None => "🧊",
        Some(r) => {
            if r.le(Double { bits: HOT_RANKS[0] }) {
                "😱"
            } else if r.le(Double { bits: HOT_RANKS[1] }) {
                "🔥"
            } else if r.le(Double { bits: HOT_RANKS[2] }) {
                "🥵"
            } else if r.le(Double { bits: HOT_RANKS[3] }) {
                "😎"
            } else {
                "🥶"
            }
        },
    }
}

/// The numbers of a score, in decimal as the caller shows them.
pub struct ScoreNumbers {
    /// The score in degrees, with two decimals.
    pub degrees: String,
    /// The score as it is.
    pub score: String,
    /// The local rank it stands for, rounded.
    pub rank: String,
    /// The rank from which scores are floored, rounded.
    pub floor_rank: String,
}

/// How a score reads back to the player.
pub open spec fn score_text_for(scoring: Scoring, score: Double, shown: ScoreNumbers) -> Seq<char> {
    match scoring {
        Scoring::Cosine { .. } => padded_left(shown.degrees@, 7) + "°C"@,
        Scoring::Rank(m) => if m.floored(score) {
            padded_left(shown.score@, 7) + " (hors du top "@ + shown.floor_rank@ + ")"@
        } else {
            padded_left(shown.score@, 7) + " (rang ≈ "@ + shown.rank@ + ")"@
        },
    }
}

/// How a score reads back to the player: degrees for Cémantix, the raw number and the rank it
/// stands for in a rank game. `quotient` is `(top − score) / alpha`.
pub fn score_text(
    scoring: &Scoring,
    score: Double,
    p: Option<u32>,
    quotient: Double,
    shown: &ScoreNumbers,
) -> (r: (String, &'static str))
    ensures
        (r.0)@ == score_text_for(*scoring, score, *shown),
        (r.1)@ == match *scoring {
            Scoring::Cosine { .. } => emoji_for(score, p),
            Scoring::Rank(m) => emoji_rank_for(
                if m.floored(score) {
                    None
                } else {
                    Some(quotient.upper(crate::scoring::one()))
                },
            ),
        },
{
    match scoring {
        Scoring::Cosine { .. } => {
            let mut t = pad_left(shown.degrees.as_str(), 7);
            append_text(&mut t, "°C");
            (t, emoji(score, p))
        },
        Scoring::Rank(m) => {
            let rank = m.local_rank(score, quotient);
            let mut t = pad_left(shown.score.as_str(), 7);
            match rank {
                Some(_) => {
                    append_text(&mut t, " (rang ≈ ");
                    append_text(&mut t, shown.rank.as_str());
                },
                None => {
                    append_text(&mut t, " (hors du top ");
                    append_text(&mut t, shown.floor_rank.as_str());
                },
            }
            append_text(&mut t, ")");
            (t, emoji_rank(rank))
        },
    }
}

/// A number in decimal, or a question mark.
pub open spec fn number_or_mark(n: Option<u32>) -> Seq<char> {
    match n {
        Some(n) => decimal(n as nat),
        None => "?"@,
    }
}

/// A word, or a question mark.
pub open spec fn word_or_mark(w: Option<String>) -> Seq<char> {
    match w {
        Some(w) => w@,
        None => "?"@,
    }
}

/// The number of a guess and its word, in columns.
pub open spec fn guess_columns(n: u32, word: Seq<char>) -> Seq<char> {
    "#"@ + padded_right(decimal(n as nat), 2) + " "@ + padded_right(word, 20)
}

/// The ‰ rank, if the server gives one.
pub open spec fn percentile_text(p: Option<u32>) -> Seq<char> {
    match p {
        Some(p) => " ‰"@ + decimal(p as nat),
        None => Seq::empty(),
    }
}

/// The constraints that hold after they were relaxed.
pub open spec fn relaxed_text(relaxed: bool, tol: Seq<char>, restricted: bool) -> Seq<char> {
    if relaxed {
        "  relâché : tol="@ + tol + ", plausible="@ + if restricted {
            "true"@
        } else {
            "false"@
        }
    } else {
        Seq::empty()
    }
}

/// How many players found the word, if the server says so.
pub open spec fn solvers_text(v: Option<u64>) -> Seq<char> {
    match v {
        Some(v) => " · "@ + decimal(v as nat) + " joueurs ont trouvé"@,
        None => Seq::empty(),
    }
}

/// The lines that tell of an event.
pub open spec fn event_text(ev: Event) -> Seq<Seq<char>> {
    match ev {
        Event::Init { day, mode, game, model, plausible, opener } => seq![
            "▶ "@ + game@ + " · "@ + mode@ + " (jour "@ + number_or_mark(day) + ") — modèle "@
                + model@ + ", "@ + decimal(plausible as nat) + " candidats plausibles, opener "@
                + word_or_mark(opener),
        ],
        Event::NeedStart { message } => match message {
            Some(m) => seq!["  "@ + m@],
            None => Seq::empty(),
        },
        Event::Probe { n, word, forced, entropy, bits_text, buckets, candidates, .. } => seq![
            if forced {
                guess_columns(n, word@) + " votre choix : H="@ + bits_text@ + " bits ("@ + decimal(
                    buckets as nat,
                ) + " tranches sur "@ + decimal(candidates as nat) + " candidats)"@
            } else if entropy.nan() {
                guess_columns(n, word@) + " (opener précalculé)"@
            } else if candidates == 1 {
                guess_columns(n, word@) + " H="@ + bits_text@ + " bits (dernier candidat)"@
            } else {
                guess_columns(n, word@) + " H="@ + bits_text@ + " bits ("@ + decimal(buckets as nat)
                    + " tranches sur "@ + decimal(candidates as nat) + " candidats)"@
            },
        ],
        Event::Result {
            score_text,
            emoji,
            percentile,
            alive_before,
            alive_after,
            top,
            tol,
            restricted,
            relaxed,
            solvers,
            ..
        } => {
            let line = "    → "@ + score_text@ + " "@ + emoji@ + percentile_text(percentile)
                + "   candidats "@ + decimal(alive_before as nat) + " → "@ + decimal(
                alive_after as nat,
            ) + relaxed_text(relaxed, tol@, restricted) + solvers_text(solvers);
            if 1 < alive_after <= 12 {
                seq![line, "      restants : "@ + joined(texts(top@), ", "@)]
            } else {
                seq![line]
            }
        },
        Event::Unknown { word, message } => seq![
            "    ✗ "@ + word@ + " : "@ + message@ + " (retiré)"@,
        ],
        Event::Solved { word, guesses, .. } => seq![
            "🥳 "@ + word@ + " trouvé en "@ + decimal(guesses as nat) + " coups"@,
        ],
    }
}

/// Writes a number behind a text.
fn append_number(r: &mut String, n: u64)
    ensures
        final(r)@ == old(r)@ + decimal(n as nat),
{
    append_text(r, write_decimal(n).as_str());
}

/// Writes the number of a guess and its word, in columns.
fn write_guess(n: u32, word: &str) -> (r: String)
    ensures
        r@ == guess_columns(n, word@),
{
    let mut r = String::new();
    append_text(&mut r, "#");
    append_text(&mut r, pad_right(write_decimal(n as u64).as_str(), 2).as_str());
    append_text(&mut r, " ");
    append_text(&mut r, pad_right(word, 20).as_str());
    assert(r@ =~= guess_columns(n, word@));
    r
}

/// The line of a started game.
fn init_line(
    day: &Option<u32>,
    mode: &String,
    game: &String,
    model: &String,
    plausible: usize,
    opener: &Option<String>,
) -> (r: String)
    ensures
        r@ == "▶ "@ + game@ + " · "@ + mode@ + " (jour "@ + number_or_mark(*day)
            + ") — modèle "@ + model@ + ", "@ + decimal(plausible as nat)
            + " candidats plausibles, opener "@ + word_or_mark(*opener),
{
    let mut r = String::new();
    append_text(&mut r, "▶ ");
    append_text(&mut r, game.as_str());
    append_text(&mut r, " · ");
    append_text(&mut r, mode.as_str());
    append_text(&mut r, " (jour ");
    match day {
        Some(d) => append_number(&mut r, *d as u64),
        None => append_text(&mut r, "?"),
    }
    append_text(&mut r, ") — modèle ");
    append_text(&mut r, model.as_str());
    append_text(&mut r, ", ");
    append_number(&mut r, plausible as u64);
    append_text(&mut r, " candidats plausibles, opener ");
    match opener {
        Some(w) => append_text(&mut r, w.as_str()),
        None => append_text(&mut r, "?"),
    }
    assert(r@ =~= "▶ "@ + game@ + " · "@ + mode@ + " (jour "@ + number_or_mark(*day)
        + ") — modèle "@ + model@ + ", "@ + decimal(plausible as nat)
        + " candidats plausibles, opener "@ + word_or_mark(*opener));
    r
}

/// The line of a guess.
fn probe_line(ev: &Event) -> (r: String)
    requires
        *ev is Probe,
    ensures
        event_text(*ev) == seq![r@],
{
    if let Event::Probe { n, word, forced, entropy, bits_text, buckets, candidates, .. } = ev {
        let mut r = write_guess(*n, word.as_str());
        if *forced {
            append_text(&mut r, " votre choix : H=");
            append_text(&mut r, bits_text.as_str());
            append_text(&mut r, " bits (");
            append_number(&mut r, *buckets as u64);
            append_text(&mut r, " tranches sur ");
            append_number(&mut r, *candidates as u64);
            append_text(&mut r, " candidats)");
        } else if entropy.is_nan() {
            append_text(&mut r, " (opener précalculé)");
        } else if *candidates == 1 {
            append_text(&mut r, " H=");
            append_text(&mut r, bits_text.as_str());
            append_text(&mut r, " bits (dernier candidat)");
        } else {
            append_text(&mut r, " H=");
            append_text(&mut r, bits_text.as_str());
            append_text(&mut r, " bits (");
            append_number(&mut r, *buckets as u64);
            append_text(&mut r, " tranches sur ");
            append_number(&mut r, *candidates as u64);
            append_text(&mut r, " candidats)");
        }
        assert(event_text(*ev) =~= seq![r@]);
        r
    } else {
        String::new()
    }
}

/// Writes the ‰ rank behind a text.
fn append_percentile(r: &mut String, p: &Option<u32>)
    ensures
        final(r)@ == old(r)@ + percentile_text(*p),
{
    let ghost start = r@;
    if let Some(p) = p {
        append_text(r, " ‰");
        append_number(r, *p as u64);
    }
    assert(r@ =~= start + percentile_text(*p));
}

/// Writes the relaxed constraints behind a text.
fn append_relaxed(r: &mut String, relaxed: bool, tol: &str, restricted: bool)
    ensures
        final(r)@ == old(r)@ + relaxed_text(relaxed, tol@, restricted),
{
    let ghost start = r@;
    if relaxed {
        append_text(r, "  relâché : tol=");
        append_text(r, tol);
        append_text(r, ", plausible=");
        append_text(
            r,
            if restricted {
                "true"
            } else {
                "false"
            },
        );
    }
    assert(r@ =~= start + relaxed_text(relaxed, tol@, restricted));
}

/// Writes the number of players who found the word behind a text.
fn append_solvers(r: &mut String, v: &Option<u64>)
    ensures
        final(r)@ == old(r)@ + solvers_text(*v),
{
    let ghost start = r@;
    if let Some(v) = v {
        append_text(r, " · ");
        append_number(r, *v);
        append_text(r, " joueurs ont trouvé");
    }
    assert(r@ =~= start + solvers_text(*v));
}

/// The line of an answer.
fn result_line(ev: &Event) -> (r: String)
    requires
        *ev is Result,
    ensures
        event_text(*ev)[0] == r@,
{
    if let Event::Result {
        score_text,
        emoji,
        percentile,
        alive_before,
        alive_after,
        tol,
        restricted,
        relaxed,
        solvers,
        ..
    } = ev {
        let mut r = String::new();
        append_text(&mut r, "    → ");
        assert(r@ =~= "    → "@);
        append_text(&mut r, score_text.as_str());
        append_text(&mut r, " ");
        append_text(&mut r, *emoji);
        append_percentile(&mut r, percentile);
        append_text(&mut r, "   candidats ");
        append_number(&mut r, *alive_before as u64);
        append_text(&mut r, " → ");
        append_number(&mut r, *alive_after as u64);
        append_relaxed(&mut r, *relaxed, tol.as_str(), *restricted);
        append_solvers(&mut r, solvers);
        r
    } else {
        String::new()
    }
}

/// The lines that tell of an event.
pub fn event_lines(ev: &Event) -> (r: Vec<String>)
    ensures
        texts(r@) == event_text(*ev),
{
    let mut r: Vec<String> = Vec::new();
    match ev {
        Event::Init { day, mode, game, model, plausible, opener } => {
            r.push(init_line(day, mode, game, model, *plausible, opener));
        },
        Event::NeedStart { message } => {
            if let Some(m) = message {
                let mut t = String::new();
                append_text(&mut t, "  ");
                append_text(&mut t, m.as_str());
                assert(t@ =~= "  "@ + m@);
                r.push(t);
            }
        },
        Event::Probe { .. } => {
            r.push(probe_line(ev));
        },
        Event::Result { alive_after, top, .. } => {
            r.push(result_line(ev));
            if *alive_after <= 12 && *alive_after > 1 {
                let mut t = String::new();
                append_text(&mut t, "      restants : ");
                append_text(&mut t, join(top, ", ").as_str());
                assert(t@ =~= "      restants : "@ + joined(texts(top@), ", "@));
                r.push(t);
            }
        },
        Event::Unknown { word, message } => {
            let mut t = String::new();
            append_text(&mut t, "    ✗ ");
            append_text(&mut t, word.as_str());
            append_text(&mut t, " : ");
            append_text(&mut t, message.as_str());
            append_text(&mut t, " (retiré)");
            assert(t@ =~= "    ✗ "@ + word@ + " : "@ + message@ + " (retiré)"@);
            r.push(t);
        },
        Event::Solved { word, guesses, .. } => {
            let mut t = String::new();
            append_text(&mut t, "🥳 ");
            append_text(&mut t, word.as_str());
            append_text(&mut t, " trouvé en ");
            append_number(&mut t, *guesses as u64);
            append_text(&mut t, " coups");
            assert(t@ =~= "🥳 "@ + word@ + " trouvé en "@ + decimal(*guesses as nat) + " coups"@);
            r.push(t);
        },
    }
    assert(texts(r@) =~= event_text(*ev));
    r
}

/// The face of a ‰ rank tells its range, and that of an unranked guess on which side of zero its
/// score lies.
pub proof fn lemma_faces_tell_the_range(score: Double, x: u32)
    ensures
        emoji_for(score, Some(x)) == "🥳"@ <==> x == 1000,
        emoji_for(score, Some(x)) == "😱"@ <==> x == 999 || x > 1000,
        emoji_for(score, Some(x)) == "🔥"@ <==> 990 <= x < 999,
        emoji_for(score, Some(x)) == "🥵"@ <==> 900 <= x < 990,
        emoji_for(score, Some(x)) == "😎"@ <==> x < 900,
        emoji_for(score, None) == "🥶"@ <==> !score.nan() && score.value() > 0,
        emoji_for(score, None) == "🧊"@ <==> score.nan() || score.value() <= 0,
{
    lemma_faces_differ();
    lemma_zero();
    if !score.nan() {
        lemma_double_order_is_numeric(Double { bits: 0 }, score);
    }
}

proof fn lemma_zero()
    ensures
        !(Double { bits: 0 }).nan(),
        (Double { bits: 0 }).value() == 0,
{
    vstd::arithmetic::power2::lemma_pow2_pos(52);
    vstd::arithmetic::div_mod::lemma_small_mod(0, vstd::arithmetic::power2::pow2(52));
    vstd::arithmetic::div_mod::lemma_basic_div(0, vstd::arithmetic::power2::pow2(52) as int);
}

proof fn lemma_faces_differ()
    ensures
        "🥳"@[0] == '🥳' && "😱"@[0] == '😱' && "🔥"@[0] == '🔥' && "🥵"@[0] == '🥵',
        "😎"@[0] == '😎' && "🥶"@[0] == '🥶' && "🧊"@[0] == '🧊',
{
    reveal_strlit("🥳");
    reveal_strlit("😱");
    reveal_strlit("🔥");
    reveal_strlit("🥵");
    reveal_strlit("😎");
    reveal_strlit("🥶");
    reveal_strlit("🧊");
}

/// The face of a rank tells its range: up to 3, 10, 50 and 200, past them, and no rank at all.
pub proof fn lemma_rank_faces_tell_the_range(r: Double)
    ensures
        emoji_rank_for(None) == "🧊"@,
        ({
            let face = emoji_rank_for(Some(r));
            let up_to = |bits: u64| r.at_most(Double { bits });
            &&& face == "😱"@ <==> up_to(0x4008_0000_0000_0000)
            &&& face == "🔥"@ <==> up_to(0x4024_0000_0000_0000) && !up_to(0x4008_0000_0000_0000)
            &&& face == "🥵"@ <==> up_to(0x4049_0000_0000_0000) && !up_to(0x4024_0000_0000_0000)
            &&& face == "😎"@ <==> up_to(0x4069_0000_0000_0000) && !up_to(0x4049_0000_0000_0000)
            &&& face == "🥶"@ <==> !up_to(0x4069_0000_0000_0000)
            &&& face != "🧊"@
        }),
{
    lemma_faces_differ();
    let (a, b, c, d) = (
        Double { bits: 0x4008_0000_0000_0000 },
        Double { bits: 0x4024_0000_0000_0000 },
        Double { bits: 0x4049_0000_0000_0000 },
        Double { bits: 0x4069_0000_0000_0000 },
    );
    assert(HOT_RANKS[0] == a.bits && HOT_RANKS[1] == b.bits && HOT_RANKS[2] == c.bits
        && HOT_RANKS[3] == d.bits);
}

/// Each event takes one line. An answer takes a second one, with the words that remain, when
/// there are two to twelve of them, and a start without a message takes none.
pub proof fn lemma_few_candidates_are_named(ev: Event)
    ensures
        ev matches Event::Result { alive_after, top, .. } ==> {
            &&& event_text(ev).len() == if 2 <= alive_after && alive_after <= 12 {
                2nat
            } else {
                1
            }
            &&& 2 <= alive_after && alive_after <= 12 ==> event_text(ev)[1] == "      restants : "@
                + joined(texts(top@), ", "@)
        },
        ev matches Event::NeedStart { message } ==> event_text(ev).len() == if message is Some {
            1nat
        } else {
            0
        },
        ev is Init || ev is Probe || ev is Unknown || ev is Solved ==> event_text(ev).len() == 1,
{
}

/// What is not there is not mentioned: no ‰ rank, no relaxed constraint, no number of players.
pub proof fn lemma_absent_numbers_are_not_shown(tol: Seq<char>, restricted: bool, p: u32, v: u64)
    ensures
        percentile_text(None).len() == 0,
        percentile_text(Some(p)).len() > 0,
        relaxed_text(false, tol, restricted).len() == 0,
        relaxed_text(true, tol, true) != relaxed_text(true, tol, false),
        solvers_text(None).len() == 0,
        solvers_text(Some(v)).len() > 0,
{
    reveal_strlit(" ‰");
    reveal_strlit(" · ");
    reveal_strlit("true");
    reveal_strlit("false");
    reveal_strlit("  relâché : tol=");
    reveal_strlit(", plausible=");
    let head = "  relâché : tol="@ + tol + ", plausible="@;
    assert(relaxed_text(true, tol, true).len() == head.len() + 4);
    assert(relaxed_text(true, tol, false).len() == head.len() + 5);
}

} // verus!
