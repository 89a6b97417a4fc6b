//! The store's on-disk layout, as pure path arithmetic: every location is
//! a fixed name under the user's home directory. Creating the directories
//! and finding the home directory are left to the caller.

use vstd::prelude::*;

verus! {

/// The application directory: `<home>/.basalt`.
pub fn get_app_dir(home: &str) -> (r: String)
    ensures
        r@ == home@ + "/.basalt"@,
{
    let r = String::from_str(home);
    r.concat("/.basalt")
}

/// The store of vault files: `<home>/.basalt/store`.
pub fn get_store_dir(home: &str) -> (r: String)
    ensures
        r@ == home@ + "/.basalt"@ + "/store"@,
{
    get_app_dir(home).concat("/store")
}

/// The device keys: `<home>/.basalt/keys`.
pub fn get_keys_dir(home: &str) -> (r: String)
    ensures
        r@ == home@ + "/.basalt"@ + "/keys"@,
{
    get_app_dir(home).concat("/keys")
}

/// Where this device's private keys live; the keys directory.
pub fn get_private_key_dir(home: &str) -> (r: String)
    ensures
        r@ == home@ + "/.basalt"@ + "/keys"@,
{
    get_keys_dir(home)
}

/// The password tree under the store: `<home>/.basalt/store/passwords`.
pub fn get_password_dir(home: &str) -> (r: String)
    ensures
        r@ == home@ + "/.basalt"@ + "/store"@ + "/passwords"@,
{
    get_store_dir(home).concat("/passwords")
}

/// Public keys shared through the store: `<home>/.basalt/store/.keys`.
pub fn get_pubkey_dir(home: &str) -> (r: String)
    ensures
        r@ == home@ + "/.basalt"@ + "/store"@ + "/.keys"@,
{
    get_store_dir(home).concat("/.keys")
}

/// Where other devices' public keys live; the shared key directory.
pub fn get_public_keys_dir(home: &str) -> (r: String)
    ensures
        r@ == home@ + "/.basalt"@ + "/store"@ + "/.keys"@,
{
    get_pubkey_dir(home)
}

/// The recorded keychain head: `<home>/.basalt/store/.head`.
pub fn get_chain_head_file(home: &str) -> (r: String)
    ensures
        r@ == home@ + "/.basalt"@ + "/store"@ + "/.head"@,
{
    get_store_dir(home).concat("/.head")
}

/// The agent's socket: `<home>/.basalt/agent.socket`.
pub fn get_agent_socket_path(home: &str) -> (r: String)
    ensures
        r@ == home@ + "/.basalt"@ + "/agent.socket"@,
{
    get_app_dir(home).concat("/agent.socket")
}

} // verus!
