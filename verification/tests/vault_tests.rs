use memvault::errors::VaultError;
use memvault::types::VaultConfig;
use memvault::vault::VaultManager;

fn personal() -> VaultConfig {
    VaultConfig {
        name: "Personal".to_string(),
        description: None,
        encryption_enabled: true,
    }
}

#[test]
fn scenario_create_vault_status() {
    let mut vm = VaultManager::new();
    let status = vm.create_vault(personal(), "correct-horse", 1000).unwrap();
    assert!(status.is_initialized);
    assert!(status.is_unlocked);
    assert_eq!(status.memory_count, 0);
    assert_eq!(status.name.as_deref(), Some("Personal"));
    assert!(status.last_sync.is_some());
    assert!(vm.is_unlocked());
    assert!(vm.get_vault_id().is_some());
}

#[test]
fn create_twice_is_rejected() {
    let mut vm = VaultManager::new();
    vm.create_vault(personal(), "correct-horse", 1000).unwrap();
    assert_eq!(
        vm.create_vault(personal(), "other", 2000),
        Err(VaultError::Validation)
    );
}

#[test]
fn scenario_wrong_password_stays_locked() {
    let mut vm = VaultManager::new();
    vm.create_vault(personal(), "correct-horse", 1000).unwrap();
    vm.lock();
    assert!(!vm.is_unlocked());
    assert_eq!(
        vm.unlock_vault("battery-staple").unwrap_err(),
        VaultError::Authentication
    );
    assert!(!vm.is_unlocked());
}

#[test]
fn unlock_recovers_the_key() {
    let mut vm = VaultManager::new();
    vm.create_vault(personal(), "correct-horse", 1000).unwrap();
    let created_key = vm.key.clone().unwrap();
    vm.lock();
    assert!(vm.key.is_none());
    let status = vm.unlock_vault("correct-horse").unwrap();
    assert!(status.is_initialized);
    assert!(status.is_unlocked);
    assert_eq!(vm.key.as_ref(), Some(&created_key));
}

#[test]
fn unlock_without_vault_reports_uninitialized() {
    let mut vm = VaultManager::new();
    let status = vm.unlock_vault("anything").unwrap();
    assert!(!status.is_initialized);
    assert!(!status.is_unlocked);
    assert_eq!(status.memory_count, 0);
    assert!(status.name.is_none());
    assert!(status.last_sync.is_none());
}

#[test]
fn status_is_a_pure_read() {
    let vm = VaultManager::new();
    let status = vm.get_status().unwrap();
    assert!(!status.is_initialized);
    assert!(!status.is_unlocked);
}

#[test]
fn update_settings_is_partial() {
    let mut vm = VaultManager::new();
    vm.create_vault(personal(), "correct-horse", 1000).unwrap();
    vm.update_settings(Some("Renamed".to_string()), None, 2000)
        .unwrap();
    let status = vm.get_status().unwrap();
    assert_eq!(status.name.as_deref(), Some("Renamed"));
    assert_eq!(vm.store.vaults[0].description, None);
    assert_eq!(vm.store.vaults[0].updated_at, 2000);
    vm.update_settings(None, Some("notes".to_string()), 3000)
        .unwrap();
    assert_eq!(vm.store.vaults[0].name, "Renamed");
    assert_eq!(vm.store.vaults[0].description.as_deref(), Some("notes"));
}

#[test]
fn update_settings_requires_unlocked() {
    let mut vm = VaultManager::new();
    vm.create_vault(personal(), "correct-horse", 1000).unwrap();
    vm.lock();
    assert_eq!(
        vm.update_settings(Some("x".to_string()), None, 2000),
        Err(VaultError::Validation)
    );
}

#[test]
fn vault_key_is_never_persisted_in_plaintext() {
    let mut vm = VaultManager::new();
    vm.create_vault(personal(), "correct-horse", 1000).unwrap();
    let key = vm.key.clone().unwrap();
    let row = &vm.store.vaults[0];
    // The stored copy is wrapped: it must not contain the raw key bytes.
    assert_ne!(row.encrypted_key, key);
    assert_eq!(row.encrypted_key.len(), key.len() + 28);
}
