# geo_relay

Chooses a relay server for two clients by where they are. Rules say which relays serve which
clients; MaxMind DB files say where an address is.

`src/` is the library, verified with Verus:

- `text`: trimming, ASCII case, cutting at separators, order, decimal numbers;
- `tiers`: relay names in falling priority, and the choice in turn among those online;
- `pairs`: rules for pairs of countries on one line, `CN-JP=relay-a,relay-b>relay-c;DEFAULT=relay-d`;
- `facts`, `matcher`, `rules`: ordered rules with nested conditions on country, city and network;
- `compat`: when both readings of the one-line notation choose alike;
- `database`, `records`: lookups in a MaxMind DB, and what is known from them;
- `settings`, `state`: the environment, loading step by step, reloading, and the choice of a relay.

The calls into the `maxminddb` crate stand in `database`, each behind a function whose contract is
taken on trust; its doc comment says what is claimed.

`app/` holds what is left: environment variables, files, locks, and decoding a YAML rule document.

Settings:

| Variable | Default | Meaning |
| --- | --- | --- |
| `GEO_RELAY_ENABLED` | `true` | whether relays are chosen at all |
| `GEO_RELAY_RULES` | none | the rules: a YAML document of version 2, or one line for pairs of countries |
| `GEOIP_COUNTRY_DB_PATH` | `/root/geoip/GeoLite2-Country.mmdb` | the country database; `GEOIP_DB_PATH` is its older name |
| `GEOIP_CITY_DB_PATH` | `/root/geoip/GeoLite2-City.mmdb` | the city database, opened where a rule reads it |
| `GEOIP_ASN_DB_PATH` | `/root/geoip/GeoLite2-ASN.mmdb` | the ASN database, opened where a rule reads it |
