# sunburn

The logic of sun-burn, a desktop tool that flashes disk images to removable
drives and configures them through a setup wizard described by a
`sunburn.json` manifest on the image's FAT32 boot partition.

`src/` is the verified library:

- `manifest`: the manifest schema, its validation and `{{field_id}}`
  template substitution;
- `image_patcher`: locating the boot partition from the MBR, the position
  arithmetic of a partition-relative stream, and deciding what to read from
  and write to the partition;
- `flasher`: the flash procedure as a state machine (unmount, open, copy in
  chunks with periodic progress reports, flush, eject or sync);
- `device_enumerator`: the removable drives in the output of `diskutil`,
  `lsblk` and `wmic`;
- `wifi_scanner`: the networks in the output of `networksetup`, `nmcli`,
  `iwlist` and `netsh`, deduplication by SSID, and the scan procedure;
- `commands`: the values the front end receives (drives, SSH keys,
  Wi-Fi networks);
- `text`, `json`, `plist_value`, `os_error`: character-sequence operations
  and the JSON, property-list and I/O-error values the parsers work on.

`app/` performs the file, device and tool I/O that the library asks for and
holds the serde forms of its types. `tests/` exercises the library.
