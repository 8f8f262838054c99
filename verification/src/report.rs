//! Composing the activity reports.
//!
//! A report is a plain document — a title, a colour, an optional footer
//! and a list of named text fields — that the transport renders and
//! sends; nothing here touches the transport. The texts are fixed
//! exactly: the daily report carries one field per top participant (at
//! most eight), the comma-joined top words (at most eight), and the
//! rendered voice time; the session report carries the channel and
//! participant mentions and the elapsed time.

use vstd::prelude::*;
use crate::strutil::{spec_dec, u64_to_string};
use crate::duration::{format_from_seconds, spec_format_tenths};

verus! {

/// The accent colour every report of the bot uses.
pub const REPORT_COLOR: u32 = 0xe190de;

/// One named text field of a report.
pub struct ReportField {
    pub name: String,
    pub value: String,
    pub inline: bool,
}

/// A renderable report document.
pub struct Report {
    pub title: String,
    pub color: u32,
    pub footer: Option<String>,
    pub fields: Vec<ReportField>,
}

/// The words joined by a comma and a blank, in order.
pub open spec fn spec_join(ws: Seq<Seq<char>>) -> Seq<char>
    decreases ws.len(),
{
    if ws.len() == 0 {
        Seq::empty()
    } else if ws.len() == 1 {
        ws[0]
    } else {
        spec_join(ws.drop_last()) + ", "@ + ws.last()
    }
}

/// The daily report's footer text.
pub open spec fn spec_footer(total: nat, unique: nat) -> Seq<char> {
    "Total messages: "@ + spec_dec(total) + " | Unique chatters: "@ + spec_dec(unique)
}

/// A channel mention.
pub open spec fn spec_channel_mention(c: nat) -> Seq<char> {
    "<#"@ + spec_dec(c) + ">"@
}

/// A user mention.
pub open spec fn spec_user_mention(u: nat) -> Seq<char> {
    "<@"@ + spec_dec(u) + ">"@
}

fn join_comma(ws: &Vec<String>, upto: usize) -> (r: String)
    requires
        upto <= ws@.len(),
    ensures
        r@ == spec_join(ws@.map_values(|w: String| w@).take(upto as int)),
{
    let ghost vs = ws@.map_values(|w: String| w@);
    let mut r = String::new();
    let mut i: usize = 0;
    while i < upto
        invariant
            0 <= i <= upto <= ws@.len(),
            vs == ws@.map_values(|w: String| w@),
            r@ == spec_join(vs.take(i as int)),
        decreases upto - i,
    {
        proof {
            assert(vs.take(i as int + 1).drop_last() =~= vs.take(i as int));
            assert(vs.take(i as int + 1).last() == vs[i as int]);
            assert(vs[i as int] == ws@[i as int]@);
        }
        if i > 0 {
            r.append(", ");
        }
        r.append(ws[i].as_str());
        proof {
            assert(r@ =~= spec_join(vs.take(i as int + 1)));
        }
        i = i + 1;
    }
    r
}

fn user_mention(u: u64) -> (r: String)
    ensures
        r@ == spec_user_mention(u as nat),
{
    let mut r = String::new();
    r.append("<@");
    let d = u64_to_string(u);
    r.append(d.as_str());
    r.append(">");
    proof {
        assert(r@ =~= spec_user_mention(u as nat));
    }
    r
}

fn str_owned(s: &str) -> (r: String)
    ensures
        r@ == s@,
{
    s.to_owned()
}

/// The daily activity report: title, footer with the totals, one field
/// per top participant (at most eight, ranked as given), the top words
/// (at most eight, comma-joined) and the rendered voice time.
pub fn build_report(
    participants: &Vec<(String, u32)>,
    words: &Vec<String>,
    total: u64,
    unique: u64,
    vc_tenths: u64,
) -> (r: Report)
    ensures
        r.title@ == "Active members"@,
        r.color == 0xe190de,
        r.footer is Some && r.footer->0@ == spec_footer(total as nat, unique as nat),
        r.fields@.len() == (if participants@.len() < 8 {
            participants@.len()
        } else {
            8
        }) + 2,
        forall|i: int|
            0 <= i < r.fields@.len() - 2 ==> {
                &&& (#[trigger] r.fields@[i]).name@ == seq!['#'] + spec_dec((i + 1) as nat)
                    + seq![' '] + participants@[i].0@
                &&& r.fields@[i].value@ == spec_dec(participants@[i].1 as nat) + " messages"@
                &&& r.fields@[i].inline == true
            },
        r.fields@[r.fields@.len() - 2].name@ == "Most used words"@,
        r.fields@[r.fields@.len() - 2].value@ == spec_join(
            words@.map_values(|w: String| w@).take(
                if words@.len() < 8 {
                    words@.len() as int
                } else {
                    8
                },
            ),
        ),
        r.fields@[r.fields@.len() - 2].inline == false,
        r.fields@[r.fields@.len() - 1].name@ == "Total time in vc today"@,
        r.fields@[r.fields@.len() - 1].value@ == spec_format_tenths(vc_tenths as nat),
        r.fields@[r.fields@.len() - 1].inline == false,
{
    let np = if participants.len() < 8 {
        participants.len()
    } else {
        8
    };
    let mut fields: Vec<ReportField> = Vec::new();
    let mut i: usize = 0;
    while i < np
        invariant
            0 <= i <= np <= participants@.len(),
            np == (if participants@.len() < 8 {
                participants@.len() as int
            } else {
                8
            }),
            fields@.len() == i,
            forall|x: int|
                0 <= x < i ==> {
                    &&& (#[trigger] fields@[x]).name@ == seq!['#'] + spec_dec((x + 1) as nat)
                        + seq![' '] + participants@[x].0@
                    &&& fields@[x].value@ == spec_dec(participants@[x].1 as nat) + " messages"@
                    &&& fields@[x].inline == true
                },
        decreases np - i,
    {
        let mut name = String::new();
        name.push('#');
        let rank = u64_to_string((i as u64) + 1);
        name.append(rank.as_str());
        name.push(' ');
        name.append(participants[i].0.as_str());
        let mut value = u64_to_string(participants[i].1 as u64);
        value.append(" messages");
        proof {
            assert(name@ =~= seq!['#'] + spec_dec((i + 1) as nat) + seq![' ']
                + participants@[i as int].0@);
            assert(value@ =~= spec_dec(participants@[i as int].1 as nat) + " messages"@);
        }
        fields.push(ReportField { name, value, inline: true });
        i = i + 1;
    }
    let nw = if words.len() < 8 {
        words.len()
    } else {
        8
    };
    let word_text = join_comma(words, nw);
    fields.push(
        ReportField { name: str_owned("Most used words"), value: word_text, inline: false },
    );
    fields.push(
        ReportField {
            name: str_owned("Total time in vc today"),
            value: format_from_seconds(vc_tenths),
            inline: false,
        },
    );
    let mut footer = String::new();
    footer.append("Total messages: ");
    let t = u64_to_string(total);
    footer.append(t.as_str());
    footer.append(" | Unique chatters: ");
    let u = u64_to_string(unique);
    footer.append(u.as_str());
    proof {
        assert(footer@ =~= spec_footer(total as nat, unique as nat));
    }
    Report {
        title: str_owned("Active members"),
        color: REPORT_COLOR,
        footer: Some(footer),
        fields,
    }
}

/// The report for one ended session: the channel mention, the mentions of
/// every recorded participant, and the elapsed time.
pub fn session_report(channel: u64, members: &Vec<u64>, duration_tenths: u64) -> (r: Report)
    ensures
        r.title@ == "VC session ended"@,
        r.color == 0xe190de,
        r.footer is None,
        r.fields@.len() == 3,
        r.fields@[0].name@ == "Channel"@,
        r.fields@[0].value@ == spec_channel_mention(channel as nat),
        r.fields@[1].name@ == "Participants"@,
        r.fields@[1].value@ == spec_join(
            members@.map_values(|u: u64| spec_user_mention(u as nat)),
        ),
        r.fields@[2].name@ == "Time elapsed"@,
        r.fields@[2].value@ == spec_format_tenths(duration_tenths as nat),
        forall|i: int| 0 <= i < 3 ==> !(#[trigger] r.fields@[i]).inline,
{
    let mut chan = String::new();
    chan.append("<#");
    let d = u64_to_string(channel);
    chan.append(d.as_str());
    chan.append(">");
    proof {
        assert(chan@ =~= spec_channel_mention(channel as nat));
    }
    let mut mentions: Vec<String> = Vec::new();
    let mut i: usize = 0;
    while i < members.len()
        invariant
            0 <= i <= members@.len(),
            mentions@.len() == i,
            forall|x: int|
                0 <= x < i ==> (#[trigger] mentions@[x])@ == spec_user_mention(
                    members@[x] as nat,
                ),
        decreases members.len() - i,
    {
        mentions.push(user_mention(members[i]));
        i = i + 1;
    }
    let text = join_comma(&mentions, mentions.len());
    proof {
        assert(mentions@.map_values(|w: String| w@).take(mentions@.len() as int)
            =~= mentions@.map_values(|w: String| w@));
        assert(mentions@.map_values(|w: String| w@) =~= members@.map_values(
            |u: u64| spec_user_mention(u as nat),
        ));
    }
    let mut fields: Vec<ReportField> = Vec::new();
    fields.push(ReportField { name: str_owned("Channel"), value: chan, inline: false });
    fields.push(ReportField { name: str_owned("Participants"), value: text, inline: false });
    fields.push(
        ReportField {
            name: str_owned("Time elapsed"),
            value: format_from_seconds(duration_tenths),
            inline: false,
        },
    );
    Report {
        title: str_owned("VC session ended"),
        color: REPORT_COLOR,
        footer: None,
        fields,
    }
}

/// The field every session report gains once the day's accumulated total
/// is known.
pub fn voice_total_field(total_tenths: u64) -> (r: ReportField)
    ensures
        r.name@ == "Total time in vc today"@,
        r.value@ == spec_format_tenths(total_tenths as nat),
        !r.inline,
{
    ReportField {
        name: str_owned("Total time in vc today"),
        value: format_from_seconds(total_tenths),
        inline: false,
    }
}

} // verus!
