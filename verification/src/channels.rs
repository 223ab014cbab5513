//! What is left of the messaging channels: inert stand-ins for the external
//! providers, their configuration records, memory keys and the system prompt.

use crate::digest::{fresh_identifier, hyphenated};
use crate::text::{extend_str, from_chars, to_chars};
use vstd::prelude::*;

verus! {

/// A message received on a channel.
#[derive(Debug)]
pub struct ChannelMessage {
    pub id: String,
    pub sender: String,
    pub reply_target: String,
    pub content: String,
    pub channel: String,
    pub timestamp: u64,
    pub thread_ts: Option<String>,
}

/// Settings of the retired e-mail channel, kept so that old configuration
/// files still load.
#[derive(Debug)]
pub struct EmailConfig {
    pub imap_host: String,
    pub imap_port: u16,
    pub imap_folder: String,
    pub smtp_host: String,
    pub smtp_port: u16,
    pub smtp_tls: bool,
    pub username: String,
    pub password: String,
    pub from_address: String,
    pub idle_timeout_secs: u64,
    pub allowed_senders: Vec<String>,
}

pub fn default_imap_port() -> (r: u16)
    ensures
        r == 993,
{
    993
}

pub fn default_smtp_port() -> (r: u16)
    ensures
        r == 465,
{
    465
}

pub fn default_imap_folder() -> (r: String)
    ensures
        r@ == "INBOX"@,
{
    "INBOX".to_owned()
}

pub fn default_idle_timeout() -> (r: u64)
    ensures
        r == 1740,
{
    1740
}

pub fn default_true() -> (r: bool)
    ensures
        r,
{
    true
}

impl EmailConfig {
    pub fn name() -> (r: &'static str)
        ensures
            r@ == "Email"@,
    {
        "Email"
    }

    pub fn desc() -> (r: &'static str)
        ensures
            r@ == "disabled in this fork"@,
    {
        "disabled in this fork"
    }
}

impl Default for EmailConfig {
    /// Every field empty, zero or false.
    fn default() -> (r: Self)
        ensures
            r.imap_host@.len() == 0,
            r.imap_port == 0,
            r.imap_folder@.len() == 0,
            r.smtp_host@.len() == 0,
            r.smtp_port == 0,
            !r.smtp_tls,
            r.username@.len() == 0,
            r.password@.len() == 0,
            r.from_address@.len() == 0,
            r.idle_timeout_secs == 0,
            r.allowed_senders@.len() == 0,
    {
        EmailConfig {
            imap_host: String::new(),
            imap_port: 0,
            imap_folder: String::new(),
            smtp_host: String::new(),
            smtp_port: 0,
            smtp_tls: false,
            username: String::new(),
            password: String::new(),
            from_address: String::new(),
            idle_timeout_secs: 0,
            allowed_senders: Vec::new(),
        }
    }
}

/// Settings of the retired telephony channel.
#[derive(Debug)]
pub struct ClawdTalkConfig {
    pub api_key: String,
    pub connection_id: String,
    pub from_number: String,
    pub allowed_destinations: Vec<String>,
    pub webhook_secret: Option<String>,
}

impl ClawdTalkConfig {
    pub fn name() -> (r: &'static str)
        ensures
            r@ == "ClawdTalk"@,
    {
        "ClawdTalk"
    }

    pub fn desc() -> (r: &'static str)
        ensures
            r@ == "disabled in this fork"@,
    {
        "disabled in this fork"
    }
}

/// Stand-in for the WhatsApp channel.  It keeps the verify token of the
/// webhook handshake and receives nothing.
#[derive(Debug)]
pub struct WhatsAppChannel {
    verify_token: String,
}

impl WhatsAppChannel {
    pub closed spec fn token(&self) -> Seq<char> {
        self.verify_token@
    }

    pub fn new(
        _access_token: String,
        _phone_number_id: String,
        verify_token: String,
        _allowed_numbers: Vec<String>,
    ) -> (r: Self)
        ensures
            r.token() == verify_token@,
    {
        WhatsAppChannel { verify_token }
    }

    pub fn verify_token(&self) -> (r: &str)
        ensures
            r@ == self.token(),
    {
        self.verify_token.as_str()
    }

    pub fn name(&self) -> (r: &'static str)
        ensures
            r@ == "whatsapp"@,
    {
        "whatsapp"
    }

    /// The messages in a webhook payload: none, whatever the payload.
    pub fn parse_webhook_payload(&self, _payload: &str) -> (r: Vec<ChannelMessage>)
        ensures
            r@.len() == 0,
    {
        Vec::new()
    }
}

/// Stand-in for the Linq channel.
#[derive(Debug, Clone, Copy)]
pub struct LinqChannel;

impl LinqChannel {
    pub fn new(_api_token: String, _from_phone: String, _allowed_senders: Vec<String>) -> (r: Self)
        ensures
            r == LinqChannel,
    {
        LinqChannel
    }

    pub fn name(&self) -> (r: &'static str)
        ensures
            r@ == "linq"@,
    {
        "linq"
    }

    /// The messages in a webhook payload: none, whatever the payload.
    pub fn parse_webhook_payload(&self, _payload: &str) -> (r: Vec<ChannelMessage>)
        ensures
            r@.len() == 0,
    {
        Vec::new()
    }
}

/// Stand-in for the WATI channel.
#[derive(Debug, Clone, Copy)]
pub struct WatiChannel;

impl WatiChannel {
    pub fn new(
        _api_token: String,
        _api_url: String,
        _tenant_id: Option<String>,
        _allowed_numbers: Vec<String>,
    ) -> (r: Self)
        ensures
            r == WatiChannel,
    {
        WatiChannel
    }

    pub fn name(&self) -> (r: &'static str)
        ensures
            r@ == "wati"@,
    {
        "wati"
    }

    /// The messages in a webhook payload: none, whatever the payload.
    pub fn parse_webhook_payload(&self, _payload: &str) -> (r: Vec<ChannelMessage>)
        ensures
            r@.len() == 0,
    {
        Vec::new()
    }
}

/// Stand-in for the Nextcloud Talk channel.
#[derive(Debug, Clone, Copy)]
pub struct NextcloudTalkChannel;

impl NextcloudTalkChannel {
    pub fn new(_base_url: String, _app_token: String, _allowed_users: Vec<String>) -> (r: Self)
        ensures
            r == NextcloudTalkChannel,
    {
        NextcloudTalkChannel
    }

    pub fn name(&self) -> (r: &'static str)
        ensures
            r@ == "nextcloud-talk"@,
    {
        "nextcloud-talk"
    }

    /// The messages in a webhook payload: none, whatever the payload.
    pub fn parse_webhook_payload(&self, _payload: &str) -> (r: Vec<ChannelMessage>)
        ensures
            r@.len() == 0,
    {
        Vec::new()
    }
}

/// What sending through a stand-in channel fails with.
pub open spec fn disabled_send_text(name: Seq<char>) -> Seq<char> {
    name + " channel integration is disabled in this fork"@
}

pub fn disabled_send_error(name: &str) -> (r: String)
    ensures
        r@ == disabled_send_text(name@),
{
    let mut out = to_chars(name);
    extend_str(&mut out, " channel integration is disabled in this fork");
    from_chars(&out)
}

/// The key under which a channel message is remembered:
/// `<channel>_<sender>_<id>`.
pub open spec fn message_key(prefix: Seq<char>, sender: Seq<char>, id: Seq<char>) -> Seq<char> {
    prefix + "_"@ + sender + "_"@ + id
}

fn memory_key(prefix: &str, msg: &ChannelMessage) -> (r: String)
    ensures
        r@ == message_key(prefix@, msg.sender@, msg.id@),
{
    let mut out = to_chars(prefix);
    extend_str(&mut out, "_");
    extend_str(&mut out, msg.sender.as_str());
    extend_str(&mut out, "_");
    extend_str(&mut out, msg.id.as_str());
    from_chars(&out)
}

pub fn whatsapp_memory_key(msg: &ChannelMessage) -> (r: String)
    ensures
        r@ == message_key("whatsapp"@, msg.sender@, msg.id@),
{
    memory_key("whatsapp", msg)
}

pub fn linq_memory_key(msg: &ChannelMessage) -> (r: String)
    ensures
        r@ == message_key("linq"@, msg.sender@, msg.id@),
{
    memory_key("linq", msg)
}

pub fn wati_memory_key(msg: &ChannelMessage) -> (r: String)
    ensures
        r@ == message_key("wati"@, msg.sender@, msg.id@),
{
    memory_key("wati", msg)
}

pub fn nextcloud_talk_memory_key(msg: &ChannelMessage) -> (r: String)
    ensures
        r@ == message_key("nextcloud_talk"@, msg.sender@, msg.id@),
{
    memory_key("nextcloud_talk", msg)
}

/// Whether `key` is `prefix` followed by an identifier in its hyphenated
/// form.
pub open spec fn is_key_with_identifier(key: Seq<char>, prefix: Seq<char>) -> bool {
    exists|bytes: Seq<u8>| bytes.len() == 16 && key == prefix + #[trigger] hyphenated(bytes)
}

/// A memory key made of `prefix` and a fresh identifier.
pub fn unique_memory_key(prefix: &str) -> (r: String)
    ensures
        is_key_with_identifier(r@, prefix@),
        r@.len() == prefix@.len() + 36,
        r@.subrange(0, prefix@.len() as int) == prefix@,
{
    let mut out = to_chars(prefix);
    let id = fresh_identifier();
    extend_str(&mut out, id.as_str());
    assert(out@.subrange(0, prefix@.len() as int) =~= prefix@);
    proof {
        let bytes = choose|bytes: Seq<u8>| bytes.len() == 16 && id@ == #[trigger] hyphenated(bytes);
        assert(out@ == prefix@ + hyphenated(bytes));
    }
    from_chars(&out)
}

/// The key under which a webhook message is remembered: `webhook_msg_` and a
/// fresh identifier.
pub fn webhook_memory_key() -> (r: String)
    ensures
        is_key_with_identifier(r@, "webhook_msg_"@),
        r@.len() == "webhook_msg_"@.len() + 36,
        r@.subrange(0, "webhook_msg_"@.len() as int) == "webhook_msg_"@,
{
    unique_memory_key("webhook_msg_")
}

/// One line of the tool list of the system prompt.
pub open spec fn tool_line(tool: (Seq<char>, Seq<char>)) -> Seq<char> {
    "- "@ + tool.0 + ": "@ + tool.1 + "\n"@
}

/// The tool lines of the system prompt, in the order of the tools.
pub open spec fn tool_lines(tools: Seq<(Seq<char>, Seq<char>)>) -> Seq<char>
    decreases tools.len(),
{
    if tools.len() == 0 {
        Seq::empty()
    } else {
        tool_lines(tools.drop_last()) + tool_line(tools.last())
    }
}

/// The system prompt: who the assistant is, where it works, which model it
/// runs on, and the tools it has, if any.
pub open spec fn system_prompt(
    workspace_dir: Seq<char>,
    model_name: Seq<char>,
    tools: Seq<(Seq<char>, Seq<char>)>,
) -> Seq<char> {
    "You are SlowClaw running in a workspace-only fork.\n"@ + "Current workspace: "@
        + workspace_dir + "\n"@ + "Model: "@ + model_name + "\n"@
        + "External messaging channels are disabled except the internal PocketBase app channel.\\n"@
        + "Prefer workspace-local tools and scheduled tasks.\\n\\n"@ + if tools.len() > 0 {
        "## Tools\\n"@ + tool_lines(tools)
    } else {
        Seq::empty()
    }
}

/// The pairs of views of a list of tools.
pub open spec fn tools_view(tools: Seq<(String, String)>) -> Seq<(Seq<char>, Seq<char>)> {
    tools.map_values(|t: (String, String)| (t.0@, t.1@))
}

/// Builds the system prompt.  The last two parameters are accepted for
/// callers that pass them and do not change the text.
pub fn build_system_prompt_with_mode(
    workspace_dir: &str,
    model_name: &str,
    tools: &Vec<(String, String)>,
    _bootstrap_max_chars: Option<usize>,
    _native_tools: bool,
) -> (r: String)
    ensures
        r@ == system_prompt(workspace_dir@, model_name@, tools_view(tools@)),
{
    let mut out: Vec<char> = Vec::new();
    extend_str(&mut out, "You are SlowClaw running in a workspace-only fork.\n");
    extend_str(&mut out, "Current workspace: ");
    extend_str(&mut out, workspace_dir);
    extend_str(&mut out, "\n");
    extend_str(&mut out, "Model: ");
    extend_str(&mut out, model_name);
    extend_str(&mut out, "\n");
    extend_str(
        &mut out,
        "External messaging channels are disabled except the internal PocketBase app channel.\\n",
    );
    extend_str(&mut out, "Prefer workspace-local tools and scheduled tasks.\\n\\n");
    let ghost head = out@;
    let ghost all = tools_view(tools@);
    if tools.len() > 0 {
        extend_str(&mut out, "## Tools\\n");
        let ghost listed = out@;
        let mut i: usize = 0;
        assert(all.take(0) =~= Seq::<(Seq<char>, Seq<char>)>::empty());
        while i < tools.len()
            invariant
                i <= tools.len(),
                all == tools_view(tools@),
                out@ == listed + tool_lines(all.take(i as int)),
            decreases tools.len() - i,
        {
            let ghost before = out@;
            extend_str(&mut out, "- ");
            extend_str(&mut out, tools[i].0.as_str());
            extend_str(&mut out, ": ");
            extend_str(&mut out, tools[i].1.as_str());
            extend_str(&mut out, "\n");
            proof {
                assert(all.take(i + 1).drop_last() =~= all.take(i as int));
                assert(all.take(i + 1).last() == all[i as int]);
                assert(out@ =~= before + tool_line(all[i as int]));
            }
            i = i + 1;
        }
        assert(all.take(tools.len() as int) =~= all);
        assert(out@ =~= head + ("## Tools\\n"@ + tool_lines(all)));
    }
    let r = from_chars(&out);
    assert(r@ =~= system_prompt(workspace_dir@, model_name@, all));
    r
}

/// Builds the system prompt for the compact prompt mode.
pub fn build_system_prompt(
    workspace_dir: &str,
    model_name: &str,
    tools: &Vec<(String, String)>,
    bootstrap_max_chars: Option<usize>,
) -> (r: String)
    ensures
        r@ == system_prompt(workspace_dir@, model_name@, tools_view(tools@)),
{
    build_system_prompt_with_mode(workspace_dir, model_name, tools, bootstrap_max_chars, false)
}

} // verus!
