//! The decisions of the client that registers OIDC clients for resources, lists
//! the clients of a resource and deletes them. The requests themselves go over
//! the network and are made outside this library.

use std::sync::Arc;

use vstd::prelude::*;

use crate::integer_text::text_chars;

verus! {

/// The id and secret of an OIDC client.
#[derive(Debug)]
pub struct ClientCredentials {
    pub client_id: String,
    pub client_secret: String,
}

impl ClientCredentials {
    /// A copy of the credentials.
    pub fn duplicate(&self) -> (r: Self)
        ensures
            r == *self,
    {
        ClientCredentials {
            client_id: self.client_id.clone(),
            client_secret: self.client_secret.clone(),
        }
    }
}

/// How the registration client reaches the identity provider.
pub struct RegistrationClientConfig {
    /// The base URL of the provider's admin API.
    pub issuer_admin_url: String,
    /// Where new clients are registered.
    pub registration_url: String,
    /// The base of the home URLs of registered clients.
    pub client_home_base_url: String,
    /// The redirect URL that registered clients get.
    pub device_redirect_url: String,
    /// Credentials handed out for every resource in place of registering a client.
    pub peer_credentials: Option<ClientCredentials>,
}

/// The registration client: a client of the identity provider (`inner`) and its
/// configuration.
pub struct RegistrationClient<C> {
    pub inner: C,
    pub config: RegistrationClientConfig,
}

/// Why a registration request failed.
#[derive(Debug)]
pub enum RegistrationClientError {
    InvalidConfiguration { error: String },
    RequestError { error: String, cause: String },
    ClientParameter { message: String, cause: String },
    Registration { cause: String },
    ClientNotFound,
    ClientDeletionError { client_ids: String },
}

impl RegistrationClientError {
    /// The text of the error.
    pub open spec fn spec_message(self) -> Seq<char> {
        match self {
            RegistrationClientError::InvalidConfiguration { error } => "Invalid configuration:\n  "@
                + error@,
            RegistrationClientError::RequestError { error, cause } => "Failed request: "@ + error@
                + ".\nCause: "@ + cause@,
            RegistrationClientError::ClientParameter { message, cause } =>
                "Failed to register new client: "@ + message@ + "\nCause: "@ + cause@,
            RegistrationClientError::Registration { cause } =>
                "Failed to register new client. Cause: "@ + cause@,
            RegistrationClientError::ClientNotFound => "Client could not be found"@,
            RegistrationClientError::ClientDeletionError { client_ids } =>
                "Following clients could not be deleted: "@ + client_ids@,
        }
    }

    /// The text of the error.
    pub fn message(&self) -> (r: String)
        ensures
            r@ == self.spec_message(),
    {
        match self {
            RegistrationClientError::InvalidConfiguration { error } => String::from_str(
                "Invalid configuration:\n  ",
            ).concat(error.as_str()),
            RegistrationClientError::RequestError { error, cause } => String::from_str(
                "Failed request: ",
            ).concat(error.as_str()).concat(".\nCause: ").concat(cause.as_str()),
            RegistrationClientError::ClientParameter { message, cause } => String::from_str(
                "Failed to register new client: ",
            ).concat(message.as_str()).concat("\nCause: ").concat(cause.as_str()),
            RegistrationClientError::Registration { cause } => String::from_str(
                "Failed to register new client. Cause: ",
            ).concat(cause.as_str()),
            RegistrationClientError::ClientNotFound => String::from_str("Client could not be found"),
            RegistrationClientError::ClientDeletionError { client_ids } => String::from_str(
                "Following clients could not be deleted: ",
            ).concat(client_ids.as_str()),
        }
    }
}

/// An OIDC client as the identity provider lists it.
#[derive(Debug)]
pub struct Client {
    pub client_id: String,
    pub base_url: Option<String>,
}

impl Client {
    /// A copy of the client.
    pub fn duplicate(&self) -> (r: Self)
        ensures
            r == *self,
    {
        Client {
            client_id: self.client_id.clone(),
            base_url: match &self.base_url {
                Some(url) => Some(url.clone()),
                None => None,
            },
        }
    }
}

/// A list of OIDC clients.
#[derive(Debug)]
pub struct Clients(pub Vec<Client>);

impl Clients {
    pub open spec fn view(self) -> Seq<Client> {
        self.0@
    }

    /// The clients, in order.
    pub fn value(&self) -> (r: Vec<Client>)
        ensures
            r@ == self@,
    {
        let mut r: Vec<Client> = Vec::new();
        let mut i: usize = 0;
        while i < self.0.len()
            invariant
                i <= self.0@.len(),
                r@ == self.0@.take(i as int),
            decreases self.0.len() - i,
        {
            r.push(self.0[i].duplicate());
            i = i + 1;
            assert(r@ =~= self.0@.take(i as int));
        }
        assert(self.0@.take(self.0@.len() as int) =~= self.0@);
        r
    }
}

impl<C> RegistrationClient<C> {
    /// A shared registration client with the given configuration and provider
    /// client.
    pub fn new(registration_client_config: RegistrationClientConfig, inner: C) -> (r: Arc<Self>)
        ensures
            r.config == registration_client_config,
            r.inner == inner,
    {
        Arc::new(RegistrationClient { inner, config: registration_client_config })
    }
}

/// The lowercase hexadecimal digit for `n` (below 16).
pub open spec fn hex_digit(n: int) -> char {
    if n < 10 {
        ((48 + n) as u32) as char
    } else {
        ((87 + n) as u32) as char
    }
}

pub open spec fn pow16(n: nat) -> nat
    decreases n,
{
    if n == 0 {
        1
    } else {
        16 * pow16((n - 1) as nat)
    }
}

/// Which of the 32 hexadecimal digits stands at position `p` of the hyphenated
/// form.
pub open spec fn uuid_digit_index(p: int) -> int {
    if p < 8 {
        p
    } else if p < 13 {
        p - 1
    } else if p < 18 {
        p - 2
    } else if p < 23 {
        p - 3
    } else {
        p - 4
    }
}

/// The hyphenated lowercase form of the UUID whose 128 bits are `id`, most
/// significant first: 32 hexadecimal digits with hyphens after the 8th, 12th,
/// 16th and 20th.
pub open spec fn uuid_hyphenated(id: u128) -> Seq<char> {
    Seq::new(
        36,
        |p: int|
            if p == 8 || p == 13 || p == 18 || p == 23 {
                '-'
            } else {
                hex_digit(((id as int) / (pow16((31 - uuid_digit_index(p)) as nat) as int)) % 16)
            },
    )
}

/// `Uuid::from_u128(id).to_string()` from the `uuid` crate: the hyphenated
/// lowercase form of the UUID.
#[verifier::external_body]
fn uuid_text(id: u128) -> (r: String)
    ensures
        r@ == uuid_hyphenated(id),
{
    uuid::Uuid::from_u128(id).to_string()
}

/// `text` occurs in `hay`.
pub open spec fn contains_text(hay: Seq<char>, text: Seq<char>) -> bool {
    exists|i: int| 0 <= i <= hay.len() - text.len() && #[trigger] hay.subrange(i, i + text.len()) == text
}

/// Whether `text` occurs in `hay`.
pub fn text_contains(hay: &str, text: &str) -> (r: bool)
    ensures
        r == contains_text(hay@, text@),
{
    let h = text_chars(hay);
    let t = text_chars(text);
    if t.len() > h.len() {
        return false;
    }
    let mut i: usize = 0;
    while i <= h.len() - t.len()
        invariant
            t.len() <= h.len(),
            h@ == hay@,
            t@ == text@,
            forall|k: int| 0 <= k < i ==> #[trigger] h@.subrange(k, k + t@.len()) != t@,
        decreases h.len() - t.len() + 1 - i,
    {
        let mut j: usize = 0;
        while j < t.len() && h[i + j] == t[j]
            invariant
                i + t.len() <= h.len(),
                j <= t.len(),
                forall|m: int| 0 <= m < j ==> h@[i + m] == t@[m],
            decreases t.len() - j,
        {
            j = j + 1;
        }
        if j == t.len() {
            assert(h@.subrange(i as int, i + t@.len()) =~= t@);
            return true;
        }
        assert(h@.subrange(i as int, i + t@.len())[j as int] != t@[j as int]);
        i = i + 1;
    }
    false
}

/// The client belongs to the resource whose id reads `id_text`: its base URL
/// holds that text.
pub open spec fn belongs_to(client: Client, id_text: Seq<char>) -> bool {
    match client.base_url {
        Some(url) => contains_text(url@, id_text),
        None => false,
    }
}

/// The clients that belong to the resource whose id reads `id_text`, in order.
pub open spec fn clients_belonging_to(clients: Seq<Client>, id_text: Seq<char>) -> Seq<Client>
    decreases clients.len(),
{
    if clients.len() == 0 {
        Seq::empty()
    } else {
        let rest = clients_belonging_to(clients.drop_last(), id_text);
        if belongs_to(clients.last(), id_text) {
            rest.push(clients.last())
        } else {
            rest
        }
    }
}

/// The clients of the resource with the given id: those whose base URL holds the
/// id's hyphenated form.
pub fn clients_of_resource(clients: &Clients, resource_id: u128) -> (r: Clients)
    ensures
        r@ == clients_belonging_to(clients@, uuid_hyphenated(resource_id)),
{
    let id_text = uuid_text(resource_id);
    let mut kept: Vec<Client> = Vec::new();
    let mut i: usize = 0;
    while i < clients.0.len()
        invariant
            i <= clients@.len(),
            id_text@ == uuid_hyphenated(resource_id),
            kept@ == clients_belonging_to(clients@.take(i as int), id_text@),
        decreases clients.0.len() - i,
    {
        let client = &clients.0[i];
        let belongs = match &client.base_url {
            Some(url) => text_contains(url.as_str(), id_text.as_str()),
            None => false,
        };
        assert(clients@.take(i + 1).drop_last() =~= clients@.take(i as int));
        if belongs {
            kept.push(client.duplicate());
        }
        i = i + 1;
    }
    assert(clients@.take(clients@.len() as int) =~= clients@);
    Clients(kept)
}

/// What the `url` crate makes of resolving `input` against the URL `base`: the
/// resolved URL, or the text of the parse error.
pub uninterp spec fn url_join(base: Seq<char>, input: Seq<char>) -> Result<Seq<char>, Seq<char>>;

/// `Url::parse(base)` followed by `Url::join(input)` from the `url` crate, the
/// URLs and the error given by their text; the result is named by [`url_join`].
#[verifier::external_body]
fn join_url(base: &str, input: &str) -> (r: Result<String, String>)
    ensures
        match r {
            Ok(url) => url_join(base@, input@) == Ok::<Seq<char>, Seq<char>>(url@),
            Err(error) => url_join(base@, input@) == Err::<Seq<char>, Seq<char>>(error@),
        },
{
    match url::Url::parse(base).and_then(|url| url.join(input)) {
        Ok(url) => Ok(url.to_string()),
        Err(error) => Err(error.to_string()),
    }
}

/// What an admin endpoint resolves to: the URL, or an invalid configuration
/// whose text tells why the URL could not be formed.
pub fn admin_endpoint(joined: Result<String, String>) -> (r: Result<String, RegistrationClientError>)
    ensures
        match joined {
            Ok(url) => r == Ok::<String, RegistrationClientError>(url),
            Err(cause) => r matches Err(RegistrationClientError::InvalidConfiguration { error })
                && error@ == "Invalid admin api endpoint for issuer. "@ + cause@,
        },
{
    match joined {
        Ok(url) => Ok(url),
        Err(cause) => Err(
            RegistrationClientError::InvalidConfiguration {
                error: String::from_str("Invalid admin api endpoint for issuer. ").concat(
                    cause.as_str(),
                ),
            },
        ),
    }
}

/// The URL of the admin endpoint that lists the clients.
pub fn enumerate_clients_url(issuer_admin_url: &String) -> (r: Result<String, RegistrationClientError>)
    ensures
        match url_join(issuer_admin_url@, "clients/"@) {
            Ok(url) => r matches Ok(u) && u@ == url,
            Err(cause) => r matches Err(RegistrationClientError::InvalidConfiguration { error })
                && error@ == "Invalid admin api endpoint for issuer. "@ + cause,
        },
{
    admin_endpoint(join_url(issuer_admin_url.as_str(), "clients/"))
}

/// The URL of the admin endpoint that deletes the client with the given id.
pub fn client_deletion_url(issuer_admin_url: &String, client_id: &String) -> (r: Result<
    String,
    RegistrationClientError,
>)
    ensures
        match url_join(issuer_admin_url@, "clients/"@ + client_id@) {
            Ok(url) => r matches Ok(u) && u@ == url,
            Err(cause) => r matches Err(RegistrationClientError::InvalidConfiguration { error })
                && error@ == "Invalid admin api endpoint for issuer. "@ + cause,
        },
{
    let client_uri = String::from_str("clients/").concat(client_id.as_str());
    admin_endpoint(join_url(issuer_admin_url.as_str(), client_uri.as_str()))
}

/// The ids separated by commas.
pub open spec fn comma_joined(ids: Seq<String>) -> Seq<char>
    decreases ids.len(),
{
    if ids.len() == 0 {
        Seq::empty()
    } else if ids.len() == 1 {
        ids[0]@
    } else {
        comma_joined(ids.drop_last()) + seq![','] + ids.last()@
    }
}

/// The outcome of deleting the clients of a resource: the deleted clients when
/// every deletion succeeded, or else the ids of those that failed.
pub fn deletion_result(clients: Clients, failed_deletion_clients: Vec<String>) -> (r: Result<
    Clients,
    RegistrationClientError,
>)
    ensures
        failed_deletion_clients@.len() == 0 ==> r == Ok::<Clients, RegistrationClientError>(clients),
        failed_deletion_clients@.len() > 0 ==> (r matches Err(
            RegistrationClientError::ClientDeletionError { client_ids },
        ) && client_ids@ == comma_joined(failed_deletion_clients@)),
{
    if failed_deletion_clients.len() == 0 {
        return Ok(clients);
    }
    let mut client_ids = String::new();
    let mut i: usize = 0;
    while i < failed_deletion_clients.len()
        invariant
            i <= failed_deletion_clients@.len(),
            client_ids@ == comma_joined(failed_deletion_clients@.take(i as int)),
        decreases failed_deletion_clients.len() - i,
    {
        proof {
            reveal_strlit(",");
            let next = failed_deletion_clients@.take(i + 1);
            assert(next.drop_last() =~= failed_deletion_clients@.take(i as int));
            if i == 0 {
                assert(next.len() == 1);
            }
        }
        if i > 0 {
            client_ids.append(",");
        }
        client_ids.append(failed_deletion_clients[i].as_str());
        i = i + 1;
    }
    assert(failed_deletion_clients@.take(failed_deletion_clients@.len() as int)
        =~= failed_deletion_clients@);
    Err(RegistrationClientError::ClientDeletionError { client_ids })
}

/// A header byte that `http::HeaderValue::from_str` accepts: visible ASCII,
/// space, tab, and any byte of a non-ASCII character.
pub open spec fn header_char_valid(c: char) -> bool {
    c == '\t' || (32 <= c as u32 && c as u32 != 127)
}

/// `http::HeaderValue::from_str`: accepts exactly the texts whose every
/// character is [`header_char_valid`]; the error reads as its `Display` gives it.
#[verifier::external_body]
fn header_value_check(text: &str) -> (r: Result<(), String>)
    ensures
        r is Ok <==> forall|i: int| 0 <= i < text@.len() ==> header_char_valid(#[trigger] text@[i]),
{
    match http::HeaderValue::from_str(text) {
        Ok(_) => Ok(()),
        Err(error) => Err(error.to_string()),
    }
}

/// The value of the authorization header for an access token: `Bearer ` and the
/// token, refused as an invalid configuration when it holds a character that a
/// header cannot carry.
pub fn authorization_header_value(access_token: &str) -> (r: Result<String, RegistrationClientError>)
    ensures
        r is Ok <==> forall|i: int|
            0 <= i < access_token@.len() ==> header_char_valid(#[trigger] access_token@[i]),
        r matches Ok(value) ==> value@ == "Bearer "@ + access_token@,
        r matches Err(e) ==> e is InvalidConfiguration,
{
    let bearer_header = String::from_str("Bearer ").concat(access_token);
    proof {
        reveal_strlit("Bearer ");
    }
    match header_value_check(bearer_header.as_str()) {
        Ok(()) => {
            assert forall|i: int| 0 <= i < access_token@.len() implies header_char_valid(
                #[trigger] access_token@[i],
            ) by {
                assert(bearer_header@[i + 7] == access_token@[i]);
            }
            Ok(bearer_header)
        },
        Err(error) => {
            proof {
                let k = choose|k: int|
                    0 <= k < bearer_header@.len() && !header_char_valid(#[trigger] bearer_header@[k]);
                assert(k >= 7);
                assert(bearer_header@[k] == access_token@[k - 7]);
            }
            Err(RegistrationClientError::InvalidConfiguration { error })
        },
    }
}

/// A grant type that a registered client may use.
#[derive(Clone, Copy, Debug, PartialEq, Eq, Structural)]
pub enum GrantType {
    ClientCredentials,
}

/// A request to register a client for a resource of a user.
#[derive(Debug)]
pub struct ClientRegistration {
    pub registration_url: String,
    pub redirect_uris: Vec<String>,
    pub grant_types: Vec<GrantType>,
    /// The resource's id in hyphenated form.
    pub client_name: String,
    /// The resource, whose URL under the client home base URL is the client's
    /// home.
    pub resource_id: u128,
    /// The user for whom the client is registered, who is part of that URL.
    pub user_id: String,
}

/// What registering a client for a resource takes.
#[derive(Debug)]
pub enum RegistrationStep {
    /// The configured credentials are handed out; nothing is registered.
    Configured(ClientCredentials),
    /// A client is to be registered with the identity provider.
    Register(ClientRegistration),
}

impl<C> RegistrationClient<C> {
    /// What registering a client for the resource with the given id and the
    /// given user takes: the configured peer credentials when there are some, or
    /// else a registration that redirects to the device URL, may use the client
    /// credentials grant, is named after the resource, and has its home at the
    /// resource's URL for the user.
    pub fn registration_step(&self, resource_id: u128, user_id: String) -> (r: RegistrationStep)
        ensures
            match self.config.peer_credentials {
                Some(credentials) => r == RegistrationStep::Configured(credentials),
                None => r matches RegistrationStep::Register(registration) && {
                    &&& registration.registration_url == self.config.registration_url
                    &&& registration.redirect_uris@ == seq![self.config.device_redirect_url]
                    &&& registration.grant_types@ == seq![GrantType::ClientCredentials]
                    &&& registration.client_name@ == uuid_hyphenated(resource_id)
                    &&& registration.resource_id == resource_id
                    &&& registration.user_id == user_id
                },
            },
    {
        match &self.config.peer_credentials {
            Some(credentials) => RegistrationStep::Configured(credentials.duplicate()),
            None => {
                let mut redirect_uris: Vec<String> = Vec::new();
                redirect_uris.push(self.config.device_redirect_url.clone());
                let mut grant_types: Vec<GrantType> = Vec::new();
                grant_types.push(GrantType::ClientCredentials);
                RegistrationStep::Register(
                    ClientRegistration {
                        registration_url: self.config.registration_url.clone(),
                        redirect_uris,
                        grant_types,
                        client_name: uuid_text(resource_id),
                        resource_id,
                        user_id,
                    },
                )
            },
        }
    }
}

} // verus!
