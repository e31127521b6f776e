use opendut::registration::{
    authorization_header_value, client_deletion_url, clients_of_resource, deletion_result,
    enumerate_clients_url, text_contains, Client, ClientCredentials, Clients, GrantType,
    RegistrationClient,
    RegistrationClientConfig, RegistrationClientError, RegistrationStep,
};

const RESOURCE: u128 = 0x67e5504410b1426f9247bb680e5fe0c8;
const RESOURCE_TEXT: &str = "67e55044-10b1-426f-9247-bb680e5fe0c8";

fn config(peer_credentials: Option<ClientCredentials>) -> RegistrationClientConfig {
    RegistrationClientConfig {
        issuer_admin_url: String::from("https://auth.example.com/admin/realms/opendut/"),
        registration_url: String::from("https://auth.example.com/realms/opendut/clients-registrations/openid-connect"),
        client_home_base_url: String::from("https://carl.example.com/"),
        device_redirect_url: String::from("http://localhost:12345/device"),
        peer_credentials,
    }
}

fn client(id: &str, base_url: Option<&str>) -> Client {
    Client { client_id: String::from(id), base_url: base_url.map(String::from) }
}

#[test]
fn clients_value_lists_all_clients() {
    let clients = Clients(vec![client("a", None), client("b", Some("x"))]);
    let v = clients.value();
    assert_eq!(v.len(), 2);
    assert_eq!(v[0].client_id, "a");
    assert_eq!(v[1].base_url, Some(String::from("x")));
}

#[test]
fn clients_of_a_resource_are_those_whose_base_url_holds_its_id() {
    let clients = Clients(vec![
        client("one", Some(&format!("https://carl.example.com/resources/{RESOURCE_TEXT}/user"))),
        client("two", None),
        client("three", Some("https://carl.example.com/resources/other")),
        client("four", Some(RESOURCE_TEXT)),
    ]);
    let kept = clients_of_resource(&clients, RESOURCE);
    let ids: Vec<&str> = kept.0.iter().map(|c| c.client_id.as_str()).collect();
    assert_eq!(ids, vec!["one", "four"]);
}

#[test]
fn substring_search() {
    assert!(text_contains("abcdef", "cde"));
    assert!(text_contains("abc", ""));
    assert!(text_contains("abc", "abc"));
    assert!(!text_contains("abc", "abcd"));
    assert!(!text_contains("abcabd", "abe"));
}

#[test]
fn deletion_succeeds_when_nothing_failed() {
    let clients = Clients(vec![client("a", None)]);
    match deletion_result(clients, vec![]) {
        Ok(c) => assert_eq!(c.0.len(), 1),
        Err(e) => panic!("unexpected error {}", e.message()),
    }
}

#[test]
fn failed_deletions_are_listed_with_commas() {
    let clients = Clients(vec![]);
    match deletion_result(clients, vec![String::from("a"), String::from("b"), String::from("c")]) {
        Ok(_) => panic!("failures were not reported"),
        Err(e) => {
            assert!(matches!(&e, RegistrationClientError::ClientDeletionError { client_ids } if client_ids == "a,b,c"));
            assert_eq!(e.message(), "Following clients could not be deleted: a,b,c");
        }
    }
}

#[test]
fn error_messages() {
    let e = RegistrationClientError::InvalidConfiguration { error: String::from("bad") };
    assert_eq!(e.message(), "Invalid configuration:\n  bad");
    let e = RegistrationClientError::RequestError { error: String::from("e"), cause: String::from("c") };
    assert_eq!(e.message(), "Failed request: e.\nCause: c");
    let e = RegistrationClientError::ClientParameter { message: String::from("m"), cause: String::from("c") };
    assert_eq!(e.message(), "Failed to register new client: m\nCause: c");
    let e = RegistrationClientError::Registration { cause: String::from("c") };
    assert_eq!(e.message(), "Failed to register new client. Cause: c");
    assert_eq!(RegistrationClientError::ClientNotFound.message(), "Client could not be found");
}

#[test]
fn admin_endpoints_are_resolved_against_the_admin_url() {
    let admin = String::from("https://auth.example.com/admin/realms/opendut/");
    assert_eq!(
        enumerate_clients_url(&admin).ok().unwrap(),
        "https://auth.example.com/admin/realms/opendut/clients/"
    );
    assert_eq!(
        client_deletion_url(&admin, &String::from("abc")).ok().unwrap(),
        "https://auth.example.com/admin/realms/opendut/clients/abc"
    );
    match enumerate_clients_url(&String::from("not a url")) {
        Ok(_) => panic!("an invalid admin url was accepted"),
        Err(e) => {
            assert!(matches!(&e, RegistrationClientError::InvalidConfiguration { error }
                if error.starts_with("Invalid admin api endpoint for issuer. ")));
        }
    }
}

#[test]
fn authorization_header() {
    assert_eq!(authorization_header_value("token123").ok().unwrap(), "Bearer token123");
    assert!(matches!(
        authorization_header_value("bad\ntoken"),
        Err(RegistrationClientError::InvalidConfiguration { .. })
    ));
    assert!(authorization_header_value("tab\tis fine").is_ok());
}

#[test]
fn configured_credentials_are_handed_out_without_registering() {
    let credentials = ClientCredentials { client_id: String::from("id"), client_secret: String::from("secret") };
    let registration_client = RegistrationClient::new(config(Some(credentials)), ());
    match registration_client.registration_step(RESOURCE, String::from("user")) {
        RegistrationStep::Configured(c) => {
            assert_eq!(c.client_id, "id");
            assert_eq!(c.client_secret, "secret");
        }
        RegistrationStep::Register(_) => panic!("a client was registered"),
    }
}

#[test]
fn without_configured_credentials_a_client_is_registered_for_the_resource() {
    let registration_client = RegistrationClient::new(config(None), 5u8);
    assert_eq!(registration_client.inner, 5);
    match registration_client.registration_step(RESOURCE, String::from("user-1")) {
        RegistrationStep::Register(r) => {
            assert_eq!(r.client_name, RESOURCE_TEXT);
            assert_eq!(r.grant_types, vec![GrantType::ClientCredentials]);
            assert_eq!(r.resource_id, RESOURCE);
            assert_eq!(r.user_id, "user-1");
            assert_eq!(r.redirect_uris, vec![String::from("http://localhost:12345/device")]);
            assert_eq!(r.registration_url, registration_client.config.registration_url);
        }
        RegistrationStep::Configured(_) => panic!("no credentials were configured"),
    }
}
