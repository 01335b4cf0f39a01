//! What is added to an event before it is stored: what its user agent says, and a device without a cookie.
//!
//! A property that the client has set is never changed.
use vstd::prelude::*;
use vstd::string::*;

use crate::cache::{hash_text, text_hash};
use crate::capture::event::{entry_text, option_view, text_entry, CapturedEvent, EventModel};
use crate::digest::{hex_number, hex_number_text};
use crate::json::{Json, JsonMap, JsonValue};
use crate::text::joined;

verus! {

// ── Configuration ─────────────────────────────────────────────────────────────

/// What is added to events.
#[derive(Debug)]
pub struct EnrichmentConfig {
    pub user_agent_parse: bool,
    pub cookieless_salt: Option<String>,
}

impl Default for EnrichmentConfig {
    fn default() -> (r: Self)
        ensures
            r.user_agent_parse,
            r.cookieless_salt is None,
    {
        EnrichmentConfig { user_agent_parse: true, cookieless_salt: None }
    }
}

impl EnrichmentConfig {
    /// The configuration from two settings: one that, by being there, turns off the reading of user
    /// agents, and the salt.
    pub fn from_env(no_ua_parse: &Option<String>, cookieless_salt: Option<String>) -> (r:
        EnrichmentConfig)
        ensures
            r.user_agent_parse == (no_ua_parse is None),
            r.cookieless_salt == cookieless_salt,
    {
        EnrichmentConfig { user_agent_parse: no_ua_parse.is_none(), cookieless_salt }
    }
}

// ── User agents ───────────────────────────────────────────────────────────────

/// What a user agent says of itself.
pub struct UserAgent {
    pub name: String,
    pub version: String,
    pub os: String,
    pub os_version: String,
    pub category: String,
}

/// The mathematical value of a [`UserAgent`].
pub struct AgentModel {
    pub name: Seq<char>,
    pub version: Seq<char>,
    pub os: Seq<char>,
    pub os_version: Seq<char>,
    pub category: Seq<char>,
}

impl View for UserAgent {
    type V = AgentModel;

    open spec fn view(&self) -> AgentModel {
        AgentModel {
            name: self.name@,
            version: self.version@,
            os: self.os@,
            os_version: self.os_version@,
            category: self.category@,
        }
    }
}

/// What `woothee` reads of a user agent.
pub uninterp spec fn agent_parsed(agent: Seq<char>) -> Option<AgentModel>;

/// `woothee::parser::Parser::parse`: what a user agent says of itself, if it is known.
#[verifier::external_body]
fn parse_agent(agent: &str) -> (r: Option<UserAgent>)
    ensures
        match agent_parsed(agent@) {
            Some(model) => r matches Some(a) && a@ == model,
            None => r is None,
        },
{
    woothee::parser::Parser::new().parse(agent).map(|found| UserAgent {
        name: found.name.to_owned(),
        version: found.version.to_owned(),
        os: found.os.to_owned(),
        os_version: found.os_version.into_owned(),
        category: found.category.to_owned(),
    })
}

/// The value of an optional text.
pub open spec fn str_view(s: Option<&str>) -> Option<Seq<char>> {
    match s {
        Some(s) => Some(s@),
        None => None,
    }
}

/// The user agent of an event: that of the request, else the one among its properties.
pub open spec fn agent_of(
    properties: Map<Seq<char>, JsonValue>,
    header: Option<Seq<char>>,
) -> Option<Seq<char>> {
    if header is Some {
        header
    } else if text_entry(properties, "$user_agent"@) is Some {
        text_entry(properties, "$user_agent"@)
    } else {
        text_entry(properties, "$useragent"@)
    }
}

/// Properties with one more, unless it is there.
pub open spec fn filled(
    properties: Map<Seq<char>, JsonValue>,
    key: Seq<char>,
    value: Seq<char>,
) -> Map<Seq<char>, JsonValue> {
    if properties.contains_key(key) {
        properties
    } else {
        properties.insert(key, JsonValue::Text(value))
    }
}

/// Properties with what a user agent says.
pub open spec fn with_agent(properties: Map<Seq<char>, JsonValue>, agent: AgentModel) -> Map<
    Seq<char>,
    JsonValue,
> {
    filled(
        filled(
            filled(
                filled(
                    filled(properties, "$browser"@, agent.name),
                    "$browser_version"@,
                    agent.version,
                ),
                "$os"@,
                agent.os,
            ),
            "$os_version"@,
            agent.os_version,
        ),
        "$device_type"@,
        agent.category,
    )
}

/// Properties once the user agent is read, given what it says.
pub open spec fn agent_added(
    properties: Map<Seq<char>, JsonValue>,
    parse: bool,
    header: Option<Seq<char>>,
) -> Map<Seq<char>, JsonValue> {
    match agent_of(properties, header) {
        Some(text) if parse && text.len() > 0 => match agent_parsed(text) {
            Some(agent) => with_agent(properties, agent),
            None => properties,
        },
        _ => properties,
    }
}

fn fill(properties: &mut JsonMap, key: &str, value: &str)
    ensures
        final(properties)@ == filled(old(properties)@, key@, value@),
        old(properties).well_formed() ==> final(properties).well_formed(),
{
    if !properties.contains_key(key) {
        properties.insert(key, Json::text(value));
    }
}

/// Adds what a user agent says to properties.
pub fn add_agent(properties: &mut JsonMap, agent: &UserAgent)
    ensures
        final(properties)@ == with_agent(old(properties)@, agent@),
        old(properties).well_formed() ==> final(properties).well_formed(),
{
    fill(properties, "$browser", agent.name.as_str());
    fill(properties, "$browser_version", agent.version.as_str());
    fill(properties, "$os", agent.os.as_str());
    fill(properties, "$os_version", agent.os_version.as_str());
    fill(properties, "$device_type", agent.category.as_str());
}

// ── Devices ───────────────────────────────────────────────────────────────────

/// What the id of a device is taken from: address, salt and day.
pub open spec fn device_input(ip: Seq<char>, salt: Seq<char>, day: Seq<char>) -> Seq<char> {
    ip + ":"@ + salt + ":"@ + day
}

/// Properties with the id of a device, where there is a salt and an address.
pub open spec fn device_added(
    properties: Map<Seq<char>, JsonValue>,
    salt: Option<Seq<char>>,
    ip: Option<Seq<char>>,
    day: Seq<char>,
) -> Map<Seq<char>, JsonValue> {
    if properties.contains_key("$device_id"@) || salt is None || salt->Some_0.len() == 0 || ip is None
        || ip->Some_0.len() == 0 {
        properties
    } else {
        properties.insert(
            "$device_id"@,
            JsonValue::Text(
                hex_number(text_hash(device_input(ip->Some_0, salt->Some_0, day)) as nat),
            ),
        )
    }
}

/// Today in UTC, as `chrono` writes it. It depends on the clock.
#[verifier::external_body]
fn today() -> (r: String) {
    chrono::Utc::now().format("%Y-%m-%d").to_string()
}

// ── Enricher ──────────────────────────────────────────────────────────────────

/// Adds to events what a configuration says.
pub struct Enricher {
    pub config: EnrichmentConfig,
}

/// An event with what is added to it on a day.
pub open spec fn enriched(
    event: EventModel,
    config: EnrichmentConfig,
    ip: Option<Seq<char>>,
    user_agent: Option<Seq<char>>,
    day: Seq<char>,
) -> EventModel {
    EventModel {
        properties: device_added(
            agent_added(event.properties, config.user_agent_parse, user_agent),
            option_view(config.cookieless_salt),
            ip,
            day,
        ),
        ..event
    }
}

impl Enricher {
    /// An enricher with a configuration.
    pub fn new(config: EnrichmentConfig) -> (r: Enricher)
        ensures
            r.config == config,
    {
        Enricher { config }
    }

    /// Adds to an event what there is to add today.
    pub fn enrich(&self, event: &mut CapturedEvent, ip: Option<&str>, user_agent: Option<&str>)
        ensures
            exists|day: Seq<char>|
                final(event)@ == #[trigger] enriched(
                    old(event)@,
                    self.config,
                    str_view(ip),
                    str_view(user_agent),
                    day,
                ),
            old(event).properties.well_formed() ==> final(event).properties.well_formed(),
    {
        let day = today();
        self.enrich_on(event, ip, user_agent, day.as_str());
    }

    /// Adds to an event what there is to add on a day.
    pub fn enrich_on(
        &self,
        event: &mut CapturedEvent,
        ip: Option<&str>,
        user_agent: Option<&str>,
        day: &str,
    )
        ensures
            final(event)@ == enriched(
                old(event)@,
                self.config,
                str_view(ip),
                str_view(user_agent),
                day@,
            ),
            old(event).properties.well_formed() ==> final(event).properties.well_formed(),
    {
        self.enrich_user_agent(&mut event.properties, user_agent);
        self.enrich_device_id(&mut event.properties, ip, day);
    }

    fn enrich_user_agent(&self, properties: &mut JsonMap, user_agent: Option<&str>)
        ensures
            final(properties)@ == agent_added(
                old(properties)@,
                self.config.user_agent_parse,
                str_view(user_agent),
            ),
            old(properties).well_formed() ==> final(properties).well_formed(),
    {
        if !self.config.user_agent_parse {
            return;
        }
        let text: String = match user_agent {
            Some(text) => text.to_owned(),
            None => match entry_text(properties, "$user_agent") {
                Some(text) => text.clone(),
                None => match entry_text(properties, "$useragent") {
                    Some(text) => text.clone(),
                    None => {
                        return;
                    },
                },
            },
        };
        if text.as_str().is_empty() {
            return;
        }
        match parse_agent(text.as_str()) {
            Some(agent) => {
                add_agent(properties, &agent);
            },
            None => {},
        }
    }

    fn enrich_device_id(&self, properties: &mut JsonMap, ip: Option<&str>, day: &str)
        ensures
            final(properties)@ == device_added(
                old(properties)@,
                option_view(self.config.cookieless_salt),
                str_view(ip),
                day@,
            ),
            old(properties).well_formed() ==> final(properties).well_formed(),
    {
        if properties.contains_key("$device_id") {
            return;
        }
        let salt = match &self.config.cookieless_salt {
            Some(salt) => salt,
            None => {
                return;
            },
        };
        let ip = match ip {
            Some(ip) => ip,
            None => {
                return;
            },
        };
        if salt.as_str().is_empty() || ip.is_empty() {
            return;
        }
        let mut input = joined(ip, ":");
        input.append(salt.as_str());
        input.append(":");
        input.append(day);
        let id = hex_number_text(hash_text(input.as_str()));
        properties.insert("$device_id", Json::text(id.as_str()));
    }
}

/// What the client has set is never changed.
pub proof fn law_client_properties_are_kept(
    event: EventModel,
    config: EnrichmentConfig,
    ip: Option<Seq<char>>,
    user_agent: Option<Seq<char>>,
    day: Seq<char>,
    key: Seq<char>,
)
    requires
        event.properties.contains_key(key),
    ensures
        enriched(event, config, ip, user_agent, day).properties.contains_key(key),
        enriched(event, config, ip, user_agent, day).properties[key] == event.properties[key],
{
}

/// Without reading user agents and without a salt, events are left as they are.
pub proof fn law_nothing_is_added_unasked(
    event: EventModel,
    config: EnrichmentConfig,
    ip: Option<Seq<char>>,
    user_agent: Option<Seq<char>>,
    day: Seq<char>,
)
    requires
        !config.user_agent_parse,
        config.cookieless_salt is None,
    ensures
        enriched(event, config, ip, user_agent, day) == event,
{
}

proof fn lemma_added_keys_differ()
    ensures
        "$browser"@ != "$browser_version"@,
        "$browser"@ != "$os"@,
        "$browser"@ != "$os_version"@,
        "$browser"@ != "$device_type"@,
        "$browser_version"@ != "$os"@,
        "$browser_version"@ != "$os_version"@,
        "$browser_version"@ != "$device_type"@,
        "$os"@ != "$os_version"@,
        "$os"@ != "$device_type"@,
        "$os_version"@ != "$device_type"@,
        "$device_id"@ != "$browser"@,
        "$device_id"@ != "$browser_version"@,
        "$device_id"@ != "$os"@,
        "$device_id"@ != "$os_version"@,
        "$device_id"@ != "$device_type"@,
{
    reveal_strlit("$browser");
    reveal_strlit("$browser_version");
    reveal_strlit("$os");
    reveal_strlit("$os_version");
    reveal_strlit("$device_type");
    reveal_strlit("$device_id");
    assert("$browser"@.len() == 8 && "$browser_version"@.len() == 16 && "$os"@.len() == 3);
    assert("$os_version"@.len() == 11 && "$device_type"@.len() == 12 && "$device_id"@.len() == 10);
}

/// Whether an event names a user agent: the request's counts, else the event's `$user_agent`, else its
/// `$useragent`.
pub open spec fn names_agent(
    properties: Map<Seq<char>, JsonValue>,
    user_agent: Option<Seq<char>>,
    text: Seq<char>,
) -> bool {
    let first = properties.contains_key("$user_agent"@) && properties["$user_agent"@] is Text;
    ||| user_agent == Some(text)
    ||| user_agent is None && properties.contains_key("$user_agent"@) && properties["$user_agent"@]
        == JsonValue::Text(text)
    ||| user_agent is None && !first && properties.contains_key("$useragent"@)
        && properties["$useragent"@] == JsonValue::Text(text)
}

/// What a user agent says fills the gaps of an event: browser and its version, system and its version, and the
/// type of the device.
pub proof fn law_agents_fill_the_gaps(
    event: EventModel,
    config: EnrichmentConfig,
    ip: Option<Seq<char>>,
    user_agent: Option<Seq<char>>,
    day: Seq<char>,
    text: Seq<char>,
    agent: AgentModel,
)
    requires
        config.user_agent_parse,
        names_agent(event.properties, user_agent, text),
        text.len() > 0,
        agent_parsed(text) == Some(agent),
    ensures
        ({
            let before = event.properties;
            let after = enriched(event, config, ip, user_agent, day).properties;
            &&& !before.contains_key("$browser"@) ==> after.contains_key("$browser"@)
                && after["$browser"@] == JsonValue::Text(agent.name)
            &&& !before.contains_key("$browser_version"@) ==> after.contains_key("$browser_version"@)
                && after["$browser_version"@] == JsonValue::Text(agent.version)
            &&& !before.contains_key("$os"@) ==> after.contains_key("$os"@) && after["$os"@]
                == JsonValue::Text(agent.os)
            &&& !before.contains_key("$os_version"@) ==> after.contains_key("$os_version"@)
                && after["$os_version"@] == JsonValue::Text(agent.os_version)
            &&& !before.contains_key("$device_type"@) ==> after.contains_key("$device_type"@)
                && after["$device_type"@] == JsonValue::Text(agent.category)
        }),
{
    lemma_added_keys_differ();
}

/// A device without a cookie is named by its address, the salt and the day, where both are known; else by
/// nothing.
pub proof fn law_devices_are_named_by_address_salt_and_day(
    event: EventModel,
    config: EnrichmentConfig,
    ip: Option<Seq<char>>,
    user_agent: Option<Seq<char>>,
    day: Seq<char>,
)
    requires
        !event.properties.contains_key("$device_id"@),
    ensures
        ({
            let after = enriched(event, config, ip, user_agent, day).properties;
            let known = config.cookieless_salt is Some && config.cookieless_salt->Some_0@.len() > 0 && ip
                is Some && ip->Some_0.len() > 0;
            &&& known ==> after.contains_key("$device_id"@) && after["$device_id"@] == JsonValue::Text(
                hex_number(
                    text_hash(
                        ip->Some_0 + ":"@ + config.cookieless_salt->Some_0@ + ":"@ + day,
                    ) as nat,
                ),
            )
            &&& !known ==> !after.contains_key("$device_id"@)
        }),
{
    lemma_added_keys_differ();
}

/// Nothing else is added, and nothing but properties changes.
pub proof fn law_nothing_else_is_added(
    event: EventModel,
    config: EnrichmentConfig,
    ip: Option<Seq<char>>,
    user_agent: Option<Seq<char>>,
    day: Seq<char>,
    key: Seq<char>,
)
    requires
        !event.properties.contains_key(key),
        key != "$browser"@ && key != "$browser_version"@ && key != "$os"@ && key != "$os_version"@ && key
            != "$device_type"@ && key != "$device_id"@,
    ensures
        ({
            let after = enriched(event, config, ip, user_agent, day);
            &&& !after.properties.contains_key(key)
            &&& after.uuid == event.uuid
            &&& after.event == event.event
            &&& after.distinct_id == event.distinct_id
            &&& after.token == event.token
            &&& after.timestamp == event.timestamp
        }),
{
}

} // verus!
